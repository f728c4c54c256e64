//! ISO 9660 (ECMA-119), with Joliet and Rock Ridge names.
//!
//! The walk is: the volume descriptors from sector 16 upwards, the root
//! directory record inside the descriptor that was chosen, then the
//! directory records of that root read recursively. Each record gives an
//! extent (a logical block number and a byte length), a flags byte and a
//! name; a record whose directory bit is set is walked, and is not a file.
//!
//! Three things about names, in the order they are preferred:
//!
//! 1. Joliet, from a supplementary volume descriptor whose escape sequence
//!    is one of the three UCS-2 ones. Its tree is a second, parallel tree
//!    over the same file extents, with real names in UCS-2BE.
//! 2. Rock Ridge `NM`, in the system use area after a record's name. Used
//!    when there is no Joliet tree.
//! 3. The ISO name itself, with the `;1` version suffix stripped.
//!
//! A file over 4 GiB is written as several consecutive records with the same
//! name, all but the last carrying the multi-extent flag, and the result is
//! one file with several extents.
use super::{
    extents_within, le_u16, le_u32, Budget, Extent, FileView, Image, ImageFile, ImageFormat,
    ImageIndex, ImageReader, IndexView, Refusal, RefusalView, SECTOR,
};
use crate::text;
use crate::text::{
    cat3, cat5, chars_of, contains_char, decimal, from_latin1, from_utf16_be, from_utf8_lossy,
    position, same, substring,
};
use vstd::prelude::*;
use vstd::slice::{slice_subrange, slice_to_vec};

verus! {

pub const FORMAT: &'static str = "ISO 9660";

/// Whether a refusal is the one that is due, as a budget that reads for a
/// format tells it.
pub open spec fn refuses<T>(
    due: Result<T, RefusalView>,
    refusal: RefusalView,
    format: Seq<char>,
) -> bool {
    due is Err && refusal == super::told_as(due->Err_0, FORMAT@, format)
}

/// The first volume descriptor is at sector 16 by the standard.
pub const FIRST_DESCRIPTOR_SECTOR: u64 = 16;

/// How many descriptors are read before the sequence is called malformed. A
/// real image has a handful; a terminator (type 255) stops the scan sooner.
/// The cap is what stops an image whose sequence never terminates.
pub const MAX_DESCRIPTORS: u64 = 64;

/// A directory record is at least this long (the fixed part plus a one-byte
/// name).
pub const MIN_RECORD_LEN: usize = 34;

/// How deep the tree is walked.
pub const MAX_DEPTH: usize = 64;

/// How many files one image may hold before it is refused.
pub const MAX_FILES: usize = 65_536;

// ---------------------------------------------------------------------
// Directory records

/// What a directory record says.
pub struct RecordView {
    pub record_len: nat,
    pub lba: u32,
    pub data_len: u32,
    pub is_dir: bool,
    pub more_extents: bool,
    pub name: Seq<u8>,
    pub system_use: Seq<u8>,
}

/// The record that `b` starts with. A zero length byte is padding to the end
/// of a logical sector and not a record.
pub open spec fn record_spec(b: Seq<u8>) -> Result<Option<RecordView>, RefusalView> {
    if b.len() == 0 || b[0] == 0 {
        Ok(None)
    } else if b[0] < MIN_RECORD_LEN {
        Err(
            super::malformed(
                FORMAT@,
                "a directory record claims "@ + text::dec(b[0] as nat)
                    + " bytes, less than the 34-byte minimum"@,
            ),
        )
    } else if b[0] > b.len() {
        Err(
            super::malformed(
                FORMAT@,
                "a directory record claims "@ + text::dec(b[0] as nat) + " bytes but only "@ + text::dec(
                    b.len(),
                ) + " are left in its directory"@,
            ),
        )
    } else if b[1] != 0 {
        Err(
            RefusalView::Unsupported {
                format: FORMAT@,
                what: "extended attribute records on a directory record"@,
            },
        )
    } else if 33 + b[32] > b[0] {
        Err(
            super::malformed(
                FORMAT@,
                "a directory record's name claims "@ + text::dec(b[32] as nat)
                    + " bytes but the record is "@ + text::dec(b[0] as nat),
            ),
        )
    } else {
        // The system use area starts after the name, which is padded to an
        // even offset.
        let name_end = 33 + b[32];
        let system_use_start = name_end + (1 - b[32] % 2);
        Ok(
            Some(
                RecordView {
                    record_len: b[0] as nat,
                    lba: super::u32_at(b, 2) as u32,
                    data_len: super::u32_at(b, 10) as u32,
                    is_dir: b[25] & 0x02 != 0,
                    more_extents: b[25] & 0x80 != 0,
                    name: b.subrange(33, name_end),
                    system_use: if system_use_start <= b[0] {
                        b.subrange(system_use_start, b[0] as int)
                    } else {
                        Seq::empty()
                    },
                },
            ),
        )
    }
}

/// One directory record, as read. Every field here came out of the image.
pub struct DirRecord {
    /// Length of the record in the directory's bytes.
    pub record_len: usize,
    /// Logical block number of the extent.
    pub lba: u32,
    /// Byte length of the extent.
    pub data_len: u32,
    pub is_dir: bool,
    /// The multi-extent flag: this record is not the last of its file.
    pub more_extents: bool,
    /// The raw name bytes, undecoded.
    pub name: Vec<u8>,
    /// The system use area after the name, where Rock Ridge lives.
    pub system_use: Vec<u8>,
}

impl View for DirRecord {
    type V = RecordView;

    open spec fn view(&self) -> RecordView {
        RecordView {
            record_len: self.record_len as nat,
            lba: self.lba,
            data_len: self.data_len,
            is_dir: self.is_dir,
            more_extents: self.more_extents,
            name: self.name@,
            system_use: self.system_use@,
        }
    }
}

/// `.` and `..`, which ISO 9660 writes as a single 0x00 or 0x01 byte.
pub open spec fn is_dot(rec: RecordView) -> bool {
    rec.name.len() == 1 && (rec.name[0] == 0 || rec.name[0] == 1)
}

impl DirRecord {
    /// The record that `b` starts with; `None` when the record length byte
    /// is zero, which is padding and not a record.
    pub fn parse<'a, R: ImageReader>(b: &[u8], budget: &Budget<'a, R>) -> (r: Result<
        Option<DirRecord>,
        Refusal,
    >)
        ensures
            match r {
                Ok(None) => record_spec(b@) == Ok::<Option<RecordView>, RefusalView>(None),
                Ok(Some(rec)) => record_spec(b@) == Ok::<Option<RecordView>, RefusalView>(
                    Some(rec@),
                ) && MIN_RECORD_LEN <= rec.record_len <= b@.len(),
                Err(e) => refuses(record_spec(b@), e@, budget.format_name()),
            },
    {
        if b.len() == 0 || b[0] == 0 {
            return Ok(None);
        }
        let record_len: usize = b[0] as usize;
        let claimed = decimal(b[0] as u64);
        if record_len < MIN_RECORD_LEN {
            return Err(
                budget.malformed(
                    cat3(
                        "a directory record claims ",
                        claimed.as_str(),
                        " bytes, less than the 34-byte minimum",
                    ).as_str(),
                ),
            );
        }
        if record_len > b.len() {
            let left = decimal(b.len() as u64);
            return Err(
                budget.malformed(
                    cat5(
                        "a directory record claims ",
                        claimed.as_str(),
                        " bytes but only ",
                        left.as_str(),
                        " are left in its directory",
                    ).as_str(),
                ),
            );
        }
        if b[1] != 0 {
            // Extended attribute records sit before the file's data and
            // would shift every extent.
            return Err(budget.unsupported("extended attribute records on a directory record"));
        }
        let (lba, data_len) = match (le_u32(b, 2), le_u32(b, 10)) {
            (Some(lba), Some(data_len)) => (lba, data_len),
            _ => {
                return Ok(None);
            },
        };
        let flags: u8 = b[25];
        let name_len: usize = b[32] as usize;
        let name_end: usize = 33 + name_len;
        if name_end > record_len {
            let length = decimal(b[32] as u64);
            return Err(
                budget.malformed(
                    crate::text::cat4(
                        "a directory record's name claims ",
                        length.as_str(),
                        " bytes but the record is ",
                        claimed.as_str(),
                    ).as_str(),
                ),
            );
        }
        let name = slice_to_vec(slice_subrange(b, 33, name_end));
        let su_start: usize = name_end + (1 - name_len % 2);
        let system_use: Vec<u8> = if su_start <= record_len {
            slice_to_vec(slice_subrange(b, su_start, record_len))
        } else {
            Vec::new()
        };
        Ok(
            Some(
                DirRecord {
                    record_len,
                    lba,
                    data_len,
                    is_dir: flags & 0x02 != 0,
                    more_extents: flags & 0x80 != 0,
                    name,
                    system_use,
                },
            ),
        )
    }

    /// `.` and `..`.
    pub fn is_dot_or_dotdot(&self) -> (r: bool)
        ensures
            r == is_dot(self@),
    {
        self.name.len() == 1 && (self.name[0] == 0 || self.name[0] == 1)
    }
}

// ---------------------------------------------------------------------
// Volume descriptors

/// What a volume descriptor says that a walk needs.
pub struct VolumeView {
    pub block_size: nat,
    pub root: RecordView,
}

/// A power of two between 512 and 65536.
pub open spec fn is_block_size(n: int) -> bool {
    ||| n == 512
    ||| n == 1024
    ||| n == 2048
    ||| n == 4096
    ||| n == 8192
    ||| n == 16384
    ||| n == 32768
    ||| n == 65536
}

/// Whether a number is a power of two between 512 and 65536.
pub fn valid_block_size(n: u64) -> (r: bool)
    ensures
        r == is_block_size(n as int),
{
    n == 512 || n == 1024 || n == 2048 || n == 4096 || n == 8192 || n == 16384 || n == 32768 || n
        == 65536
}

/// The volume that a descriptor states.
pub open spec fn volume_spec(d: Seq<u8>) -> Result<VolumeView, RefusalView> {
    let block_size = super::u16_at(d, 128);
    if !is_block_size(block_size) {
        Err(
            super::malformed(
                FORMAT@,
                "logical block size "@ + text::dec(block_size as nat)
                    + " is not a power of two between 512 and 65536"@,
            ),
        )
    } else {
        match record_spec(d.subrange(156, 190)) {
            Err(e) => Err(e),
            Ok(None) => Err(
                super::malformed(FORMAT@, "the volume descriptor's root directory record is empty"@),
            ),
            Ok(Some(root)) => if !root.is_dir {
                Err(super::malformed(FORMAT@, "the root directory record is not a directory"@))
            } else {
                Ok(VolumeView { block_size: block_size as nat, root })
            },
        }
    }
}

/// A volume descriptor, reduced to the two things a walk needs.
pub struct Volume {
    pub block_size: u64,
    pub root: DirRecord,
}

impl View for Volume {
    type V = VolumeView;

    open spec fn view(&self) -> VolumeView {
        VolumeView { block_size: self.block_size as nat, root: self.root@ }
    }
}

/// The volume that a descriptor of at least 190 bytes states.
pub fn parse_volume<'a, R: ImageReader>(budget: &Budget<'a, R>, d: &[u8]) -> (r: Result<
    Volume,
    Refusal,
>)
    requires
        d@.len() >= 190,
    ensures
        match r {
            Ok(v) => volume_spec(d@) == Ok::<VolumeView, RefusalView>(v@),
            Err(e) => refuses(volume_spec(d@), e@, budget.format_name()),
        },
{
    let block_size: u64 = match le_u16(d, 128) {
        Some(n) => n as u64,
        None => 0,
    };
    if !valid_block_size(block_size) {
        let size = decimal(block_size);
        return Err(
            budget.malformed(
                cat3(
                    "logical block size ",
                    size.as_str(),
                    " is not a power of two between 512 and 65536",
                ).as_str(),
            ),
        );
    }
    match DirRecord::parse(slice_subrange(d, 156, 190), budget) {
        Err(e) => Err(e),
        Ok(None) => Err(
            budget.malformed("the volume descriptor's root directory record is empty"),
        ),
        Ok(Some(root)) => {
            if !root.is_dir {
                return Err(budget.malformed("the root directory record is not a directory"));
            }
            Ok(Volume { block_size, root })
        },
    }
}

/// Joliet's three escape sequences, `%/@`, `%/C` and `%/E` (UCS-2 levels 1,
/// 2 and 3), at a place in an escape field.
pub open spec fn joliet_escape_at(esc: Seq<u8>, i: int) -> bool {
    &&& 0 <= i
    &&& i + 3 <= esc.len()
    &&& esc[i] == 0x25
    &&& esc[i + 1] == 0x2f
    &&& (esc[i + 2] == 0x40 || esc[i + 2] == 0x43 || esc[i + 2] == 0x45)
}

/// One of Joliet's escape sequences anywhere in an escape field.
pub open spec fn has_joliet_escape(esc: Seq<u8>) -> bool {
    exists|i: int| #[trigger] joliet_escape_at(esc, i)
}

/// Whether an escape field holds one of Joliet's escape sequences.
pub fn is_joliet_escape(esc: &[u8]) -> (r: bool)
    ensures
        r == has_joliet_escape(esc@),
{
    let mut i: usize = 0;
    while i < esc.len() && esc.len() - i >= 3
        invariant
            i <= esc@.len(),
            forall|j: int| 0 <= j < i ==> !#[trigger] joliet_escape_at(esc@, j),
        decreases esc@.len() - i,
    {
        let level: u8 = esc[i + 2];
        if esc[i] == 0x25 && esc[i + 1] == 0x2f && (level == 0x40 || level == 0x43 || level
            == 0x45) {
            proof {
                assert(joliet_escape_at(esc@, i as int));
            }
            return true;
        }
        i += 1;
    }
    false
}

/// `CD001`, which every volume descriptor carries after its type byte.
pub open spec fn has_cd001(d: Seq<u8>) -> bool {
    d[1] == 0x43 && d[2] == 0x44 && d[3] == 0x30 && d[4] == 0x30 && d[5] == 0x31
}

/// What the descriptor sequence says, and how many bytes reading it took.
pub struct DescriptorsView {
    pub primary: Option<VolumeView>,
    pub joliet: Option<VolumeView>,
    pub used: nat,
}

/// What a missing primary volume descriptor is told as.
pub open spec fn no_descriptor() -> RefusalView {
    RefusalView::NotAnImage {
        detail: "no ISO 9660 primary volume descriptor (no `CD001` at sector 16)"@,
    }
}

/// What a descriptor sequence without an end is told as.
pub open spec fn endless() -> RefusalView {
    RefusalView::Malformed {
        format: FORMAT@,
        detail: "the volume descriptor sequence has no terminator in 64 descriptors"@,
    }
}

/// The descriptor sequence from its `i`-th sector on: the first primary
/// descriptor and the first Joliet one, up to a terminator, a sector that is
/// no descriptor, or the end of the image. One that goes on for as many
/// descriptors as are read is malformed.
pub open spec fn descriptors_from(
    image: Image,
    i: nat,
    seen: bool,
    primary: Option<VolumeView>,
    joliet: Option<VolumeView>,
    used: nat,
) -> Result<DescriptorsView, RefusalView>
    decreases MAX_DESCRIPTORS - i,
{
    let sector = FIRST_DESCRIPTOR_SECTOR as nat + i;
    let end: Result<DescriptorsView, RefusalView> = if seen {
        Ok(DescriptorsView { primary, joliet, used })
    } else {
        Err(no_descriptor())
    };
    if i >= MAX_DESCRIPTORS && seen {
        Err(endless())
    } else if i >= MAX_DESCRIPTORS || (sector + 1) * SECTOR > image.len {
        end
    } else {
        match super::read_sector_spec(image, FORMAT@, used, sector) {
            Err(e) => Err(e),
            Ok(d) => {
                let used = used + SECTOR as nat;
                if !has_cd001(d) {
                    if seen {
                        Ok(DescriptorsView { primary, joliet, used })
                    } else {
                        Err(no_descriptor())
                    }
                } else if d[0] == 255 {
                    Ok(DescriptorsView { primary, joliet, used })
                } else if d[0] == 1 && primary is None {
                    match volume_spec(d) {
                        Err(e) => Err(e),
                        Ok(v) => descriptors_from(image, i + 1, true, Some(v), joliet, used),
                    }
                } else if d[0] == 2 && joliet is None && has_joliet_escape(d.subrange(88, 120)) {
                    match volume_spec(d) {
                        Err(e) => Err(e),
                        Ok(v) => descriptors_from(image, i + 1, true, primary, Some(v), used),
                    }
                } else {
                    descriptors_from(image, i + 1, true, primary, joliet, used)
                }
            },
        }
    }
}

/// The descriptors of an image.
pub struct Descriptors {
    pub primary: Option<Volume>,
    pub joliet: Option<Volume>,
}

/// What an optional volume says.
pub open spec fn volume_view(v: Option<Volume>) -> Option<VolumeView> {
    match v {
        Some(v) => Some(v@),
        None => None,
    }
}

/// A volume, where there is one, has a block size that the format allows.
pub open spec fn has_block_size(v: Option<Volume>) -> bool {
    v is Some ==> is_block_size(v->0.block_size as int)
}

fn not_an_image() -> (r: Refusal)
    ensures
        r@ == no_descriptor(),
{
    Refusal::NotAnImage {
        detail: "no ISO 9660 primary volume descriptor (no `CD001` at sector 16)".to_owned(),
    }
}

/// Scan the descriptor sequence from sector 16 until its terminator.
pub fn read_descriptors<'a, R: ImageReader>(budget: &mut Budget<'a, R>) -> (r: Result<
    Descriptors,
    Refusal,
>)
    requires
        old(budget).well_formed(),
    ensures
        final(budget).well_formed(),
        final(budget).source() == old(budget).source(),
        final(budget).format_name() == old(budget).format_name(),
        ({
            let spec = descriptors_from(
                old(budget).source().image(),
                0,
                false,
                None,
                None,
                old(budget).spent(),
            );
            match r {
                Ok(d) => spec == Ok::<DescriptorsView, RefusalView>(
                    DescriptorsView {
                        primary: volume_view(d.primary),
                        joliet: volume_view(d.joliet),
                        used: final(budget).spent(),
                    },
                ) && has_block_size(d.primary) && has_block_size(d.joliet),
                Err(e) => refuses(spec, e@, old(budget).format_name()) || super::read_failed(
                    &old(budget).source(),
                    e,
                ),
            }
        }),
{
    let mut primary: Option<Volume> = None;
    let mut joliet: Option<Volume> = None;
    let mut any_cd001 = false;
    let ghost image = budget.source().image();
    let mut i: u64 = 0;
    loop
        invariant_except_break
            descriptors_from(image, 0, false, None, None, old(budget).spent()) == descriptors_from(
                image,
                i as nat,
                any_cd001,
                volume_view(primary),
                volume_view(joliet),
                budget.spent(),
            ),
        invariant
            i < MAX_DESCRIPTORS,
            budget.well_formed(),
            budget.source() == old(budget).source(),
            budget.format_name() == old(budget).format_name(),
            image == old(budget).source().image(),
            has_block_size(primary),
            has_block_size(joliet),
        ensures
            descriptors_from(image, 0, false, None, None, old(budget).spent()) == (if any_cd001 {
                Ok::<DescriptorsView, RefusalView>(
                    DescriptorsView {
                        primary: volume_view(primary),
                        joliet: volume_view(joliet),
                        used: budget.spent(),
                    },
                )
            } else {
                Err::<DescriptorsView, RefusalView>(no_descriptor())
            }),
        decreases MAX_DESCRIPTORS - i,
    {
        let sector: u64 = FIRST_DESCRIPTOR_SECTOR + i;
        // Past the end of the image is the end of the sequence, not a
        // refusal: a truncated tail after a terminator changes nothing.
        if (sector + 1) * SECTOR > budget.image_len() {
            break;
        }
        let d = match budget.read_sector(sector) {
            Ok(d) => d,
            Err(e) => {
                return Err(e);
            },
        };
        if !(d[1] == 0x43 && d[2] == 0x44 && d[3] == 0x30 && d[4] == 0x30 && d[5] == 0x31) {
            break;
        }
        any_cd001 = true;
        let kind: u8 = d[0];
        if kind == 255 {
            break;
        }
        if kind == 1 && primary.is_none() {
            match parse_volume(budget, d.as_slice()) {
                Ok(v) => {
                    primary = Some(v);
                },
                Err(e) => {
                    return Err(e);
                },
            }
        } else if kind == 2 && joliet.is_none() && is_joliet_escape(
            slice_subrange(d.as_slice(), 88, 120),
        ) {
            // Supplementary: Joliet when its escape sequence says UCS-2.
            // Any other supplementary descriptor is some other character
            // set and is left alone.
            match parse_volume(budget, d.as_slice()) {
                Ok(v) => {
                    joliet = Some(v);
                },
                Err(e) => {
                    return Err(e);
                },
            }
        }
        i += 1;
        if i >= MAX_DESCRIPTORS {
            return Err(
                budget.malformed(
                    "the volume descriptor sequence has no terminator in 64 descriptors",
                ),
            );
        }
    }
    if !any_cd001 {
        return Err(not_an_image());
    }
    Ok(Descriptors { primary, joliet })
}

// ---------------------------------------------------------------------
// Names

/// A name without its version suffix, and without a `.` that then ends it.
pub open spec fn strip_version(s: Seq<char>) -> Seq<char> {
    let base = match text::find_char(s, ';') {
        Some(i) => s.take(i),
        None => s,
    };
    if base.len() > 0 && base.last() == '.' {
        base.drop_last()
    } else {
        base
    }
}

fn without_version(s: &str) -> (r: String)
    ensures
        r@ == strip_version(s@),
{
    let v = chars_of(s);
    let mut end: usize = match position(v.as_slice(), ';') {
        Some(i) => i,
        None => v.len(),
    };
    let ghost base = s@.take(end as int);
    proof {
        assert(s@.take(s@.len() as int) =~= s@);
    }
    if end > 0 && v[end - 1] == '.' {
        proof {
            assert(base.drop_last() =~= s@.subrange(0, end - 1));
        }
        end -= 1;
    } else {
        proof {
            assert(base =~= s@.subrange(0, end as int));
        }
    }
    substring(v.as_slice(), 0, end)
}

/// The ISO name: one byte per character.
pub open spec fn iso_name_spec(raw: Seq<u8>) -> Seq<char> {
    strip_version(text::latin1(raw))
}

/// `HELLO.TXT;1` is `HELLO.TXT`, and a trailing bare `.` is dropped with it.
pub fn iso_name(raw: &[u8]) -> (r: String)
    ensures
        r@ == iso_name_spec(raw@),
{
    without_version(from_latin1(raw).as_str())
}

/// The Joliet name: UCS-2, the more significant byte first.
pub open spec fn joliet_name_spec(raw: Seq<u8>) -> Seq<char> {
    strip_version(text::utf16_text(text::big_endian_units(raw)))
}

/// A Joliet name. An unpaired surrogate is replaced rather than refused: it
/// is a name, not an offset.
pub fn joliet_name(raw: &[u8]) -> (r: String)
    ensures
        r@ == joliet_name_spec(raw@),
{
    without_version(from_utf16_be(raw).as_str())
}

/// One entry of a system use area: its two signature bytes and its data.
pub struct EntryView {
    pub signature: (u8, u8),
    pub data: Seq<u8>,
}

/// The entries of a system use area from `pos` on. One whose length is less
/// than four, or more than what is left, ends the list.
pub open spec fn entries_from(su: Seq<u8>, pos: int) -> Seq<EntryView>
    decreases su.len() - pos,
{
    if pos < 0 || pos + 4 > su.len() || su[pos + 2] < 4 || pos + su[pos + 2] > su.len() {
        Seq::empty()
    } else {
        seq![
            EntryView {
                signature: (su[pos], su[pos + 1]),
                data: su.subrange(pos + 4, pos + su[pos + 2]),
            },
        ] + entries_from(su, pos + su[pos + 2])
    }
}

/// The entries of a system use area after the bytes to skip.
pub open spec fn entries_spec(su: Seq<u8>, skip: nat) -> Seq<EntryView> {
    entries_from(
        su,
        if skip < su.len() {
            skip as int
        } else {
            su.len() as int
        },
    )
}

/// One entry of a system use area.
pub struct SystemUseEntry {
    pub signature: (u8, u8),
    pub data: Vec<u8>,
}

impl View for SystemUseEntry {
    type V = EntryView;

    open spec fn view(&self) -> EntryView {
        EntryView { signature: self.signature, data: self.data@ }
    }
}

/// What a list of entries says.
pub open spec fn entries_view(entries: Seq<SystemUseEntry>) -> Seq<EntryView> {
    entries.map_values(|e: SystemUseEntry| e@)
}

/// The system use entries of a record. Every length is checked against what
/// is left, so a hostile system use area is a short list.
pub fn system_use_entries(su: &[u8], skip: usize) -> (r: Vec<SystemUseEntry>)
    ensures
        entries_view(r@) == entries_spec(su@, skip as nat),
{
    let size: usize = su.len();
    let mut pos: usize = if skip < size {
        skip
    } else {
        size
    };
    let mut out: Vec<SystemUseEntry> = Vec::new();
    let ghost all = entries_from(su@, pos as int);
    proof {
        assert(entries_view(out@) + all =~= all);
    }
    while size - pos >= 4
        invariant
            pos <= size,
            size == su@.len(),
            entries_view(out@) + entries_from(su@, pos as int) == all,
        ensures
            entries_view(out@) == all,
        decreases size - pos,
    {
        let len: usize = su[pos + 2] as usize;
        let ghost before = entries_view(out@);
        if len < 4 || size - pos < len {
            proof {
                assert(before + Seq::<EntryView>::empty() =~= before);
            }
            break;
        }
        let entry = SystemUseEntry {
            signature: (su[pos], su[pos + 1]),
            data: slice_to_vec(slice_subrange(su, pos + 4, pos + len)),
        };
        let ghost seen = entry@;
        out.push(entry);
        proof {
            let rest = entries_from(su@, pos + len);
            assert(entries_view(out@) =~= before.push(seen));
            assert(before.push(seen) + rest =~= before + (seq![seen] + rest));
        }
        pos += len;
        proof {
            if size - pos < 4 {
                assert(entries_view(out@) + Seq::<EntryView>::empty() =~= entries_view(out@));
            }
        }
    }
    out
}

/// The text of the Rock Ridge `NM` entries, one after the other. One for `.`
/// or `..` (the CURRENT and PARENT flags) is not a name and is left out.
pub open spec fn nm_text(entries: Seq<EntryView>) -> Seq<char>
    decreases entries.len(),
{
    if entries.len() == 0 {
        Seq::empty()
    } else {
        let e = entries.last();
        let before = nm_text(entries.drop_last());
        if e.signature == (0x4eu8, 0x4du8) && e.data.len() > 0 && e.data[0] & 0x06 == 0 {
            before + text::lossy_utf8(e.data.skip(1))
        } else {
            before
        }
    }
}

/// The Rock Ridge name in a system use area, if it holds one.
pub open spec fn rock_ridge_name_spec(su: Seq<u8>, skip: nat) -> Option<Seq<char>> {
    let name = nm_text(entries_spec(su, skip));
    if name.len() > 0 {
        Some(name)
    } else {
        None
    }
}

/// Rock Ridge `NM`: the real name, possibly split over several entries with
/// the CONTINUE flag. A name continued into a `CE` continuation area is not
/// followed: the ISO name is a correct fallback.
pub fn rock_ridge_name(su: &[u8], skip: usize) -> (r: Option<String>)
    ensures
        match r {
            Some(s) => rock_ridge_name_spec(su@, skip as nat) == Some(s@),
            None => rock_ridge_name_spec(su@, skip as nat) is None,
        },
{
    let entries = system_use_entries(su, skip);
    let ghost all = entries_view(entries@);
    let mut name = String::new();
    let mut i: usize = 0;
    while i < entries.len()
        invariant
            i <= entries@.len(),
            all == entries_view(entries@),
            name@ == nm_text(all.take(i as int)),
        decreases entries@.len() - i,
    {
        let e = &entries[i];
        proof {
            assert(all.take(i + 1).drop_last() =~= all.take(i as int));
            assert(all.take(i + 1).last() == e@);
        }
        if e.signature.0 == 0x4e && e.signature.1 == 0x4d && e.data.len() > 0 && e.data[0] & 0x06
            == 0 {
            let part = from_utf8_lossy(slice_subrange(e.data.as_slice(), 1, e.data.len()));
            proof {
                assert(e.data@.subrange(1, e.data@.len() as int) =~= e.data@.skip(1));
            }
            name.push_str(part.as_str());
        }
        i += 1;
    }
    proof {
        assert(all.take(all.len() as int) =~= all);
    }
    if name.as_str().is_empty() {
        None
    } else {
        Some(name)
    }
}

/// The skip that the last Rock Ridge `SP` entry states.
pub open spec fn sp_skip(entries: Seq<EntryView>) -> nat
    decreases entries.len(),
{
    if entries.len() == 0 {
        0
    } else {
        let e = entries.last();
        if e.signature == (0x53u8, 0x50u8) && e.data.len() >= 3 && e.data[0] == 0xbe && e.data[1]
            == 0xef {
            e.data[2] as nat
        } else {
            sp_skip(entries.drop_last())
        }
    }
}

/// Rock Ridge `SP`, in the root's `.` record: how many bytes to skip at the
/// start of every system use area.
pub fn rock_ridge_sp_skip(su: &[u8]) -> (r: usize)
    ensures
        r == sp_skip(entries_spec(su@, 0)),
{
    let entries = system_use_entries(su, 0);
    let ghost all = entries_view(entries@);
    let mut skip: usize = 0;
    let mut i: usize = 0;
    while i < entries.len()
        invariant
            i <= entries@.len(),
            all == entries_view(entries@),
            skip == sp_skip(all.take(i as int)),
        decreases entries@.len() - i,
    {
        let e = &entries[i];
        proof {
            assert(all.take(i + 1).drop_last() =~= all.take(i as int));
            assert(all.take(i + 1).last() == e@);
        }
        if e.signature.0 == 0x53 && e.signature.1 == 0x50 && e.data.len() >= 3 && e.data[0] == 0xbe
            && e.data[1] == 0xef {
            skip = e.data[2] as usize;
        }
        i += 1;
    }
    proof {
        assert(all.take(all.len() as int) =~= all);
    }
    skip
}

/// A name that would build a path that is not the path the image describes.
pub open spec fn is_bad_name(name: Seq<char>) -> bool {
    name.len() == 0 || name == seq!['.'] || name == seq!['.', '.'] || name.contains('/')
        || name.contains('\0')
}

/// Whether a name would build a path that is not the path the image
/// describes.
pub fn bad_name(name: &str) -> (r: bool)
    ensures
        r == is_bad_name(name@),
{
    proof {
        reveal_strlit(".");
        reveal_strlit("..");
        assert("."@ =~= seq!['.']);
        assert(".."@ =~= seq!['.', '.']);
    }
    name.is_empty() || same(name, ".") || same(name, "..") || contains_char(name, '/')
        || contains_char(name, '\0')
}

/// A name out of an image is untrusted: one holding a separator is refused.
pub fn check_name<'a, R: ImageReader>(name: &str, budget: &Budget<'a, R>) -> (r: Result<
    String,
    Refusal,
>)
    ensures
        match r {
            Ok(s) => !is_bad_name(name@) && s@ == name@,
            Err(e) => is_bad_name(name@) && e@ == super::told_as(
                bad_name_refusal(name@),
                FORMAT@,
                budget.format_name(),
            ),
        },
{
    if bad_name(name) {
        return Err(
            budget.malformed(cat3("a directory record's name is `", name, "`").as_str()),
        );
    }
    Ok(name.to_owned())
}

/// What a bad name is refused with.
pub open spec fn bad_name_refusal(name: Seq<char>) -> RefusalView {
    super::malformed(FORMAT@, "a directory record's name is `"@ + name + "`"@)
}

/// The best name a record carries, and whether it is a Rock Ridge one.
pub open spec fn best_name(rec: RecordView, joliet: bool, su_skip: nat) -> (Seq<char>, bool) {
    if joliet {
        (joliet_name_spec(rec.name), false)
    } else {
        match rock_ridge_name_spec(rec.system_use, su_skip) {
            Some(name) => (name, true),
            None => (iso_name_spec(rec.name), false),
        }
    }
}

// ---------------------------------------------------------------------
// The walk

/// What stays the same over a walk.
pub struct Tree {
    pub block_size: nat,
    pub joliet: bool,
}

/// What a walk has gathered.
pub struct Gathered {
    pub rock_ridge: bool,
    pub su_skip: nat,
    pub files: Seq<FileView>,
}

/// A file some of whose extents have been read.
pub struct PendingView {
    pub path: Seq<char>,
    pub extents: Seq<Extent>,
}

/// Where one directory's records have got to.
pub struct ScanView {
    pub gathered: Gathered,
    pub pending: Option<PendingView>,
    pub subdirs: Seq<(RecordView, Seq<char>)>,
}

/// The file being built is done.
pub open spec fn finish_spec(
    pending: Option<PendingView>,
    files: Seq<FileView>,
) -> Result<Seq<FileView>, RefusalView> {
    match pending {
        None => Ok(files),
        Some(p) => if super::total_len(p.extents) > u64::MAX {
            Err(
                super::malformed(
                    FORMAT@,
                    "the extents of `"@ + p.path + "` sum to more than a u64"@,
                ),
            )
        } else {
            Ok(
                files.push(
                    FileView {
                        path: p.path,
                        len: super::total_len(p.extents),
                        extents: p.extents,
                    },
                ),
            )
        },
    }
}

/// What one record that is a file adds.
pub open spec fn add_file(
    tree: Tree,
    rec: RecordView,
    path: Seq<char>,
    s: ScanView,
) -> Result<ScanView, RefusalView> {
    let extent = Extent { offset: (rec.lba * tree.block_size) as u64, len: rec.data_len as u64 };
    let opened: Result<(Seq<FileView>, PendingView), RefusalView> = match s.pending {
        // Same name, still open: another extent of the file the last record
        // began.
        Some(p) if p.path == path => Ok(
            (s.gathered.files, PendingView { path, extents: p.extents.push(extent) }),
        ),
        _ => match finish_spec(s.pending, s.gathered.files) {
            Err(e) => Err(e),
            Ok(files) => Ok((files, PendingView { path, extents: seq![extent] })),
        },
    };
    match opened {
        Err(e) => Err(e),
        Ok((files, pending)) => {
            let closed: Result<(Seq<FileView>, Option<PendingView>), RefusalView> =
                if rec.more_extents {
                Ok((files, Some(pending)))
            } else {
                match finish_spec(Some(pending), files) {
                    Err(e) => Err(e),
                    Ok(files) => Ok((files, None)),
                }
            };
            match closed {
                Err(e) => Err(e),
                Ok((files, pending)) => if files.len() > MAX_FILES {
                    Err(super::malformed(FORMAT@, "the image holds more than 65536 files"@))
                } else {
                    Ok(
                        ScanView {
                            gathered: Gathered { files, ..s.gathered },
                            pending,
                            subdirs: s.subdirs,
                        },
                    )
                },
            }
        },
    }
}

/// What one directory record adds.
pub open spec fn add_record(
    tree: Tree,
    rec: RecordView,
    path: Seq<char>,
    top: bool,
    s: ScanView,
) -> Result<ScanView, RefusalView> {
    if is_dot(rec) {
        // The root's `.` record carries `SP`, whose skip count applies to
        // every system use area after it.
        if top && s.gathered.su_skip == 0 {
            Ok(
                ScanView {
                    gathered: Gathered {
                        su_skip: sp_skip(entries_spec(rec.system_use, 0)),
                        ..s.gathered
                    },
                    ..s
                },
            )
        } else {
            Ok(s)
        }
    } else {
        let (name, rock_ridge) = best_name(rec, tree.joliet, s.gathered.su_skip);
        if is_bad_name(name) {
            Err(bad_name_refusal(name))
        } else {
            let child = path + "/"@ + name;
            let gathered = Gathered {
                rock_ridge: s.gathered.rock_ridge || rock_ridge,
                ..s.gathered
            };
            if rec.is_dir {
                // A directory ends any file being built.
                match finish_spec(s.pending, gathered.files) {
                    Err(e) => Err(e),
                    Ok(files) => Ok(
                        ScanView {
                            gathered: Gathered { files, ..gathered },
                            pending: None,
                            subdirs: s.subdirs.push((rec, child)),
                        },
                    ),
                }
            } else {
                add_file(tree, rec, child, ScanView { gathered, ..s })
            }
        }
    }
}

/// What the records of a directory's bytes from `pos` on add.
pub open spec fn scan_from(
    bytes: Seq<u8>,
    pos: nat,
    tree: Tree,
    path: Seq<char>,
    top: bool,
    s: ScanView,
) -> Result<ScanView, RefusalView>
    decreases (if pos < bytes.len() { bytes.len() - pos } else { 0 }),
{
    if pos >= bytes.len() {
        Ok(s)
    } else {
        match record_spec(bytes.skip(pos as int)) {
            Err(e) => Err(e),
            // A zero length byte is padding to the next sector.
            Ok(None) => scan_from(bytes, ((pos / 2048 + 1) * 2048) as nat, tree, path, top, s),
            Ok(Some(rec)) => match add_record(tree, rec, path, top, s) {
                Err(e) => Err(e),
                Ok(s) => if rec.record_len == 0 {
                    Ok(s)
                } else {
                    scan_from(bytes, pos + rec.record_len, tree, path, top, s)
                },
            },
        }
    }
}

/// What the bytes of a directory add: its files, and the directories in it.
pub open spec fn scan_spec(
    bytes: Seq<u8>,
    tree: Tree,
    path: Seq<char>,
    top: bool,
    gathered: Gathered,
) -> Result<(Gathered, Seq<(RecordView, Seq<char>)>), RefusalView> {
    match scan_from(
        bytes,
        0,
        tree,
        path,
        top,
        ScanView { gathered, pending: None, subdirs: Seq::empty() },
    ) {
        Err(e) => Err(e),
        Ok(s) => match finish_spec(s.pending, s.gathered.files) {
            Err(e) => Err(e),
            Ok(files) => Ok((Gathered { files, ..s.gathered }, s.subdirs)),
        },
    }
}

/// What walking one directory gathers, and how many bytes have been read
/// once it is walked. `visited` is the path of blocks back to the root.
pub open spec fn walk_spec(
    image: Image,
    tree: Tree,
    dir: RecordView,
    path: Seq<char>,
    depth: nat,
    visited: Seq<u32>,
    gathered: Gathered,
    used: nat,
) -> Result<(Gathered, nat), RefusalView>
    decreases MAX_DEPTH + 1 - depth, 0nat,
{
    if depth > MAX_DEPTH {
        Err(
            super::malformed(
                FORMAT@,
                "the directory tree is deeper than 64 levels at `"@ + path + "`"@,
            ),
        )
    } else if visited.contains(dir.lba) {
        Err(
            super::malformed(
                FORMAT@,
                "directory `"@ + path + "` points at block "@ + text::dec(dir.lba as nat)
                    + ", which is already on the path from the root: a cycle"@,
            ),
        )
    } else {
        match super::read_spec(
            image,
            FORMAT@,
            used,
            (dir.lba * tree.block_size) as nat,
            dir.data_len as nat,
        ) {
            Err(e) => Err(e),
            Ok(bytes) => match scan_spec(bytes, tree, path, depth == 0, gathered) {
                Err(e) => Err(e),
                Ok((gathered, subdirs)) => walk_all(
                    image,
                    tree,
                    subdirs,
                    depth + 1,
                    visited.push(dir.lba),
                    gathered,
                    used + dir.data_len as nat,
                ),
            },
        }
    }
}

/// What walking several directories gathers, one after the other.
pub open spec fn walk_all(
    image: Image,
    tree: Tree,
    dirs: Seq<(RecordView, Seq<char>)>,
    depth: nat,
    visited: Seq<u32>,
    gathered: Gathered,
    used: nat,
) -> Result<(Gathered, nat), RefusalView>
    decreases MAX_DEPTH + 1 - depth, dirs.len() + 1,
{
    if dirs.len() == 0 {
        Ok((gathered, used))
    } else {
        match walk_spec(image, tree, dirs[0].0, dirs[0].1, depth, visited, gathered, used) {
            Err(e) => Err(e),
            Ok((gathered, used)) => walk_all(
                image,
                tree,
                dirs.skip(1),
                depth,
                visited,
                gathered,
                used,
            ),
        }
    }
}

/// A file some of whose extents have been read.
pub struct Pending {
    pub path: String,
    pub extents: Vec<Extent>,
}

/// What an optional pending file says.
pub open spec fn pending_view(p: Option<Pending>) -> Option<PendingView> {
    match p {
        Some(p) => Some(PendingView { path: p.path@, extents: p.extents@ }),
        None => None,
    }
}

/// How many bytes a list of extents covers, or `None` where that is more
/// than a `u64` holds.
fn covered(extents: &Vec<Extent>) -> (r: Option<u64>)
    ensures
        match r {
            Some(n) => n == super::total_len(extents@),
            None => super::total_len(extents@) > u64::MAX,
        },
{
    let mut sum: u64 = 0;
    let mut i: usize = 0;
    proof {
        assert(extents@.skip(0) =~= extents@);
    }
    while i < extents.len()
        invariant
            i <= extents@.len(),
            super::total_len(extents@) == sum + super::total_len(extents@.skip(i as int)),
        decreases extents@.len() - i,
    {
        proof {
            assert(extents@.skip(i as int).skip(1) =~= extents@.skip(i + 1));
            assert(extents@.skip(i as int)[0] == extents@[i as int]);
        }
        match sum.checked_add(extents[i].len) {
            Some(n) => {
                sum = n;
            },
            None => {
                return None;
            },
        }
        i += 1;
    }
    Some(sum)
}

/// Close the file being built, if there is one: it joins the files with the
/// sum of its extents as its length.
pub fn finish_pending<'a, R: ImageReader>(
    pending: &mut Option<Pending>,
    files: &mut Vec<ImageFile>,
    budget: &Budget<'a, R>,
) -> (r: Result<(), Refusal>)
    ensures
        ({
            let spec = finish_spec(pending_view(*old(pending)), super::files_view(old(files)@));
            match r {
                Ok(()) => spec == Ok::<Seq<FileView>, RefusalView>(
                    super::files_view(final(files)@),
                ),
                Err(e) => refuses(spec, e@, budget.format_name()) && final(files)@ == old(
                    files,
                )@,
            }
        }),
        *final(pending) is None,
{
    match pending.take() {
        None => Ok(()),
        Some(p) => match covered(&p.extents) {
            None => Err(
                budget.malformed(
                    cat3(
                        "the extents of `",
                        p.path.as_str(),
                        "` sum to more than a u64",
                    ).as_str(),
                ),
            ),
            Some(len) => {
                let ghost before = super::files_view(files@);
                let file = ImageFile { path: p.path, len, extents: p.extents };
                let ghost seen = file@;
                files.push(file);
                proof {
                    assert(super::files_view(files@) =~= before.push(seen));
                }
                Ok(())
            },
        },
    }
}

/// A walk of one tree of an image.
pub struct Walk {
    pub block_size: u64,
    pub joliet: bool,
    pub rock_ridge: bool,
    pub files: Vec<ImageFile>,
    /// Blocks of the directories on the path from the root, to stop a cycle.
    pub visited: Vec<u32>,
    /// Bytes the Rock Ridge `SP` entry says to skip at the start of every
    /// system use area.
    pub su_skip: usize,
}

/// What a list of records and paths says.
pub open spec fn dirs_view(dirs: Seq<(DirRecord, String)>) -> Seq<(RecordView, Seq<char>)> {
    dirs.map_values(|d: (DirRecord, String)| (d.0@, d.1@))
}

impl Walk {
    /// What the walk holds fixed.
    pub open spec fn tree(&self) -> Tree {
        Tree { block_size: self.block_size as nat, joliet: self.joliet }
    }

    /// What the walk has gathered.
    pub open spec fn gathered(&self) -> Gathered {
        Gathered {
            rock_ridge: self.rock_ridge,
            su_skip: self.su_skip as nat,
            files: super::files_view(self.files@),
        }
    }

    /// The best name the record carries, by the order in this module's
    /// documentation.
    pub fn name_of<'a, R: ImageReader>(&mut self, rec: &DirRecord, budget: &Budget<'a, R>) -> (r:
        Result<String, Refusal>)
        ensures
            final(self).tree() == old(self).tree(),
            final(self).visited@ == old(self).visited@,
            final(self).files == old(self).files,
            final(self).su_skip == old(self).su_skip,
            ({
                let (name, rock_ridge) = best_name(
                    rec@,
                    old(self).joliet,
                    old(self).su_skip as nat,
                );
                &&& final(self).rock_ridge == (old(self).rock_ridge || rock_ridge)
                &&& match r {
                    Ok(s) => !is_bad_name(name) && s@ == name,
                    Err(e) => is_bad_name(name) && e@ == super::told_as(
                        bad_name_refusal(name),
                        FORMAT@,
                        budget.format_name(),
                    ),
                }
            }),
    {
        if self.joliet {
            let name = joliet_name(rec.name.as_slice());
            return check_name(name.as_str(), budget);
        }
        match rock_ridge_name(rec.system_use.as_slice(), self.su_skip) {
            Some(name) => {
                self.rock_ridge = true;
                check_name(name.as_str(), budget)
            },
            None => {
                let name = iso_name(rec.name.as_slice());
                check_name(name.as_str(), budget)
            },
        }
    }

    /// Take in one record of a directory that is a file.
    fn file<'a, R: ImageReader>(
        &mut self,
        rec: &DirRecord,
        path: String,
        pending: &mut Option<Pending>,
        Ghost(subdirs): Ghost<Seq<(RecordView, Seq<char>)>>,
        budget: &Budget<'a, R>,
    ) -> (r: Result<(), Refusal>)
        requires
            old(self).block_size <= 65536,
        ensures
            final(self).tree() == old(self).tree(),
            final(self).visited@ == old(self).visited@,
            ({
                let spec = add_file(
                    old(self).tree(),
                    rec@,
                    path@,
                    ScanView {
                        gathered: old(self).gathered(),
                        pending: pending_view(*old(pending)),
                        subdirs,
                    },
                );
                match r {
                    Ok(()) => spec == Ok::<ScanView, RefusalView>(
                        ScanView {
                            gathered: final(self).gathered(),
                            pending: pending_view(*final(pending)),
                            subdirs,
                        },
                    ),
                    Err(e) => refuses(spec, e@, budget.format_name()),
                }
            }),
    {
        proof {
            assert(rec.lba * self.block_size <= 0xffff_ffff * 65536) by (nonlinear_arith)
                requires
                    rec.lba <= 0xffff_ffff,
                    self.block_size <= 65536,
            ;
        }
        let extent = Extent {
            offset: rec.lba as u64 * self.block_size,
            len: rec.data_len as u64,
        };
        let mut open: Option<Pending> = None;
        std::mem::swap(&mut open, pending);
        match open {
            Some(mut p) if same(p.path.as_str(), path.as_str()) => {
                p.extents.push(extent);
                *pending = Some(p);
            },
            other => {
                *pending = other;
                match finish_pending(pending, &mut self.files, budget) {
                    Ok(()) => {},
                    Err(e) => {
                        return Err(e);
                    },
                }
                let mut extents: Vec<Extent> = Vec::new();
                extents.push(extent);
                proof {
                    assert(extents@ =~= seq![extent]);
                }
                *pending = Some(Pending { path, extents });
            },
        }
        if !rec.more_extents {
            match finish_pending(pending, &mut self.files, budget) {
                Ok(()) => {},
                Err(e) => {
                    return Err(e);
                },
            }
        }
        if self.files.len() > MAX_FILES {
            return Err(budget.malformed("the image holds more than 65536 files"));
        }
        Ok(())
    }
}

impl Walk {
    /// Take in the records of one directory's bytes: its files, and the
    /// directories in it, in the order they stand there.
    fn records<'a, R: ImageReader>(
        &mut self,
        bytes: &[u8],
        path: &str,
        top: bool,
        budget: &Budget<'a, R>,
    ) -> (r: Result<Vec<(DirRecord, String)>, Refusal>)
        requires
            old(self).block_size <= 65536,
            bytes@.len() <= super::INDEX_READ_BUDGET,
        ensures
            final(self).tree() == old(self).tree(),
            final(self).visited@ == old(self).visited@,
            ({
                let spec = scan_spec(bytes@, old(self).tree(), path@, top, old(self).gathered());
                match r {
                    Ok(dirs) => spec == Ok::<
                        (Gathered, Seq<(RecordView, Seq<char>)>),
                        RefusalView,
                    >((final(self).gathered(), dirs_view(dirs@))),
                    Err(e) => refuses(spec, e@, budget.format_name()),
                }
            }),
    {
        let mut subdirs: Vec<(DirRecord, String)> = Vec::new();
        let mut pending: Option<Pending> = None;
        let mut pos: usize = 0;
        let ghost tree = self.tree();
        let ghost start = ScanView {
            gathered: self.gathered(),
            pending: None,
            subdirs: Seq::empty(),
        };
        proof {
            assert(dirs_view(subdirs@) =~= Seq::empty());
        }
        while pos < bytes.len()
            invariant
                self.block_size <= 65536,
                bytes@.len() <= super::INDEX_READ_BUDGET,
                pos <= bytes@.len() + 2048,
                self.tree() == tree,
                tree == old(self).tree(),
                start == (ScanView {
                    gathered: old(self).gathered(),
                    pending: None,
                    subdirs: Seq::empty(),
                }),
                self.visited@ == old(self).visited@,
                scan_from(bytes@, 0, tree, path@, top, start) == scan_from(
                    bytes@,
                    pos as nat,
                    tree,
                    path@,
                    top,
                    ScanView {
                        gathered: self.gathered(),
                        pending: pending_view(pending),
                        subdirs: dirs_view(subdirs@),
                    },
                ),
            decreases bytes@.len() + 2048 - pos,
        {
            proof {
                assert(bytes@.subrange(pos as int, bytes@.len() as int) =~= bytes@.skip(
                    pos as int,
                ));
            }
            let parsed = DirRecord::parse(slice_subrange(bytes, pos, bytes.len()), budget);
            let rec: DirRecord = match parsed {
                Err(e) => {
                    return Err(e);
                },
                Ok(None) => {
                    // A zero length byte is padding to the next sector.
                    pos = (pos / 2048 + 1) * 2048;
                    continue ;
                },
                Ok(Some(rec)) => rec,
            };
            pos += rec.record_len;
            let ghost seen = rec@;
            let ghost before = ScanView {
                gathered: self.gathered(),
                pending: pending_view(pending),
                subdirs: dirs_view(subdirs@),
            };
            if rec.is_dot_or_dotdot() {
                if top && self.su_skip == 0 {
                    self.su_skip = rock_ridge_sp_skip(rec.system_use.as_slice());
                }
                continue ;
            }
            let name = match self.name_of(&rec, budget) {
                Ok(name) => name,
                Err(e) => {
                    return Err(e);
                },
            };
            let child_path = cat3(path, "/", name.as_str());
            if rec.is_dir {
                match finish_pending(&mut pending, &mut self.files, budget) {
                    Ok(()) => {},
                    Err(e) => {
                        return Err(e);
                    },
                }
                let ghost held = dirs_view(subdirs@);
                let ghost where_to = child_path@;
                subdirs.push((rec, child_path));
                proof {
                    assert(dirs_view(subdirs@) =~= held.push((seen, where_to)));
                }
                continue ;
            }
            match self.file(&rec, child_path, &mut pending, Ghost(dirs_view(subdirs@)), budget) {
                Ok(()) => {},
                Err(e) => {
                    return Err(e);
                },
            }
        }
        // A last record with the multi-extent flag still set is a file whose
        // continuation the directory does not hold. It is kept with what it
        // has rather than dropped.
        match finish_pending(&mut pending, &mut self.files, budget) {
            Ok(()) => {},
            Err(e) => {
                return Err(e);
            },
        }
        Ok(subdirs)
    }

    /// Walk one directory. Recursion is bounded by [`MAX_DEPTH`] and the
    /// path back to the root is in `visited`, so a directory that points at
    /// one of its own ancestors is a refusal rather than a loop.
    pub fn directory<'a, R: ImageReader>(
        &mut self,
        budget: &mut Budget<'a, R>,
        dir: &DirRecord,
        path: &str,
        depth: usize,
    ) -> (r: Result<(), Refusal>)
        requires
            old(budget).well_formed(),
            old(self).block_size <= 65536,
        ensures
            final(budget).well_formed(),
            final(budget).source() == old(budget).source(),
            final(budget).format_name() == old(budget).format_name(),
            final(self).tree() == old(self).tree(),
            ({
                let spec = walk_spec(
                    old(budget).source().image(),
                    old(self).tree(),
                    dir@,
                    path@,
                    depth as nat,
                    old(self).visited@,
                    old(self).gathered(),
                    old(budget).spent(),
                );
                match r {
                    Ok(()) => spec == Ok::<(Gathered, nat), RefusalView>(
                        (final(self).gathered(), final(budget).spent()),
                    ) && final(self).visited@ == old(self).visited@,
                    Err(e) => refuses(spec, e@, old(budget).format_name())
                        || super::read_failed(&old(budget).source(), e),
                }
            }),
        decreases
            (if depth <= MAX_DEPTH {
                MAX_DEPTH + 1 - depth
            } else {
                0
            }),
    {
        if depth > MAX_DEPTH {
            return Err(
                budget.malformed(
                    cat3(
                        "the directory tree is deeper than 64 levels at `",
                        path,
                        "`",
                    ).as_str(),
                ),
            );
        }
        let mut i: usize = 0;
        while i < self.visited.len()
            invariant
                i <= self.visited@.len(),
                forall|j: int| 0 <= j < i ==> self.visited@[j] != dir.lba,
                *self == *old(self),
                *budget == *old(budget),
                old(budget).well_formed(),
                depth <= MAX_DEPTH,
            decreases self.visited@.len() - i,
        {
            if self.visited[i] == dir.lba {
                proof {
                    assert(self.visited@.contains(dir.lba));
                }
                let block = decimal(dir.lba as u64);
                return Err(
                    budget.malformed(
                        cat5(
                            "directory `",
                            path,
                            "` points at block ",
                            block.as_str(),
                            ", which is already on the path from the root: a cycle",
                        ).as_str(),
                    ),
                );
            }
            i += 1;
        }
        proof {
            assert(!self.visited@.contains(dir.lba));
        }
        let ghost seen = self.visited@;
        self.visited.push(dir.lba);
        proof {
            assert(dir.lba * self.block_size <= 0xffff_ffff * 65536) by (nonlinear_arith)
                requires
                    dir.lba <= 0xffff_ffff,
                    self.block_size <= 65536,
            ;
        }
        let offset: u64 = dir.lba as u64 * self.block_size;
        let bytes = match budget.read_exact(offset, dir.data_len as usize) {
            Ok(bytes) => bytes,
            Err(e) => {
                return Err(e);
            },
        };
        proof {
            budget.lemma_within_budget();
        }
        let subdirs = match self.records(bytes.as_slice(), path, depth == 0, budget) {
            Ok(subdirs) => subdirs,
            Err(e) => {
                return Err(e);
            },
        };
        let ghost dirs = dirs_view(subdirs@);
        let ghost image = budget.source().image();
        let ghost inner = seen.push(dir.lba);
        let ghost whole = walk_all(
            image,
            self.tree(),
            dirs,
            (depth + 1) as nat,
            inner,
            self.gathered(),
            budget.spent(),
        );
        let mut k: usize = 0;
        proof {
            assert(dirs.skip(0) =~= dirs);
        }
        while k < subdirs.len()
            invariant
                k <= subdirs@.len(),
                dirs == dirs_view(subdirs@),
                depth <= MAX_DEPTH,
                budget.well_formed(),
                budget.format_name() == old(budget).format_name(),
                budget.source() == old(budget).source(),
                image == budget.source().image(),
                self.block_size <= 65536,
                self.tree() == old(self).tree(),
                self.visited@ == inner,
                whole == walk_all(
                    image,
                    self.tree(),
                    dirs.skip(k as int),
                    (depth + 1) as nat,
                    inner,
                    self.gathered(),
                    budget.spent(),
                ),
                walk_spec(
                    image,
                    old(self).tree(),
                    dir@,
                    path@,
                    depth as nat,
                    old(self).visited@,
                    old(self).gathered(),
                    old(budget).spent(),
                ) == whole,
            decreases subdirs@.len() - k,
        {
            proof {
                assert(dirs.skip(k as int)[0] == dirs[k as int]);
                assert(dirs[k as int] == (subdirs@[k as int].0@, subdirs@[k as int].1@));
                assert(dirs.skip(k as int).skip(1) =~= dirs.skip(k + 1));
            }
            let child = &subdirs[k];
            match self.directory(budget, &child.0, child.1.as_str(), depth + 1) {
                Ok(()) => {},
                Err(e) => {
                    return Err(e);
                },
            }
            k += 1;
        }
        let _ = self.visited.pop();
        proof {
            assert(inner.drop_last() =~= seen);
            assert(self.visited@ =~= seen);
        }
        Ok(())
    }
}

// ---------------------------------------------------------------------
// The index

/// The first file with an extent outside the image, told in words.
pub open spec fn files_within(files: Seq<FileView>, image_len: nat) -> Result<(), Seq<char>>
    decreases files.len(),
{
    if files.len() == 0 {
        Ok(())
    } else {
        match super::within_spec(files[0].extents, image_len) {
            Err(e) => Err(e),
            Ok(()) => files_within(files.skip(1), image_len),
        }
    }
}

/// Whether every extent of every file lies inside the image.
pub fn check_files(files: &Vec<ImageFile>, image_len: u64) -> (r: Result<(), String>)
    ensures
        match r {
            Ok(()) => files_within(super::files_view(files@), image_len as nat) is Ok,
            Err(s) => files_within(super::files_view(files@), image_len as nat) == Err::<
                (),
                Seq<char>,
            >(s@),
        },
{
    let ghost all = super::files_view(files@);
    let mut i: usize = 0;
    proof {
        assert(all.skip(0) =~= all);
    }
    while i < files.len()
        invariant
            i <= files@.len(),
            all == super::files_view(files@),
            files_within(all, image_len as nat) == files_within(
                all.skip(i as int),
                image_len as nat,
            ),
        decreases files@.len() - i,
    {
        proof {
            assert(all.skip(i as int)[0] == files@[i as int]@);
            assert(all.skip(i as int).skip(1) =~= all.skip(i + 1));
        }
        match extents_within(files[i].extents.as_slice(), image_len) {
            Ok(()) => {},
            Err(s) => {
                return Err(s);
            },
        }
        i += 1;
    }
    Ok(())
}

/// The ISO 9660 index of an image.
pub open spec fn index_spec(image: Image) -> Result<IndexView, RefusalView> {
    match descriptors_from(image, 0, false, None, None, 0) {
        Err(e) => Err(e),
        Ok(d) => {
            // Joliet first: it is a whole tree with real names.
            let chosen = if d.joliet is Some {
                d.joliet
            } else {
                d.primary
            };
            match chosen {
                None => Err(no_descriptor()),
                Some(volume) => match walk_spec(
                    image,
                    Tree { block_size: volume.block_size, joliet: d.joliet is Some },
                    volume.root,
                    Seq::empty(),
                    0,
                    Seq::empty(),
                    Gathered { rock_ridge: false, su_skip: 0, files: Seq::empty() },
                    d.used,
                ) {
                    Err(e) => Err(e),
                    Ok((gathered, _)) => match files_within(gathered.files, image.len) {
                        Err(detail) => Err(super::malformed(FORMAT@, detail)),
                        Ok(()) => Ok(
                            IndexView {
                                format: ImageFormat::Iso9660 {
                                    joliet: d.joliet is Some,
                                    rock_ridge: gathered.rock_ridge,
                                },
                                files: gathered.files,
                            },
                        ),
                    },
                },
            }
        },
    }
}

/// Read the image's ISO 9660 index.
pub fn index<R: ImageReader>(reader: &R) -> (r: Result<ImageIndex, Refusal>)
    ensures
        match r {
            Ok(index) => index_spec(reader.image()) == Ok::<IndexView, RefusalView>(index@),
            Err(e) => index_spec(reader.image()) == Err::<IndexView, RefusalView>(e@)
                || super::read_failed(reader, e),
        },
{
    let mut budget = Budget::new(reader, FORMAT);
    let descriptors = match read_descriptors(&mut budget) {
        Ok(d) => d,
        Err(e) => {
            return Err(e);
        },
    };
    let (chosen, joliet) = match descriptors.joliet {
        Some(d) => (d, true),
        None => match descriptors.primary {
            Some(d) => (d, false),
            None => {
                return Err(not_an_image());
            },
        },
    };
    let mut walk = Walk {
        block_size: chosen.block_size,
        joliet,
        rock_ridge: false,
        files: Vec::new(),
        visited: Vec::new(),
        su_skip: 0,
    };
    proof {
        reveal_strlit("");
        assert(""@ =~= Seq::empty());
        assert(super::files_view(walk.files@) =~= Seq::empty());
    }
    match walk.directory(&mut budget, &chosen.root, "", 0) {
        Ok(()) => {},
        Err(e) => {
            return Err(e);
        },
    }
    match check_files(&walk.files, budget.image_len()) {
        Ok(()) => {},
        Err(detail) => {
            return Err(budget.malformed(detail.as_str()));
        },
    }
    Ok(
        ImageIndex {
            format: ImageFormat::Iso9660 { joliet, rock_ridge: walk.rock_ridge },
            files: walk.files,
        },
    )
}

} // verus!
