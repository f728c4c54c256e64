//! Disc images, as an index: which byte ranges of the image are each file's
//! data.
//!
//! Given an image (an ISO 9660 CD or DVD image, a UDF Blu-ray image, or a
//! bridge disc that is both) this module reads the descriptors and the
//! directory tree and returns, per file, the ranges of the image's own bytes
//! that hold that file's data. It does not decode, does not copy and does
//! not write.
//!
//! * Reads are bounded: [`Budget`] holds an index to a fixed number of bytes.
//! * A refusal is typed and names its reason ([`Refusal`]). Everything read
//!   out of the image is untrusted, so every arithmetic step is checked and
//!   every bound is compared against the image's real length.
//! * A file is a list of extents, in order. Directories are not files.
//!
//! What an index is, is stated over the image's bytes alone
//! ([`Image`]): the same bytes give the same index, whatever the reader.
use crate::text::{cat2, cat3, cat5, cat7, decimal, hexadecimal};
use std::sync::Arc;
use vstd::prelude::*;
use vstd::slice::slice_subrange;

pub mod iso9660;
pub mod entries;
pub mod laws;
pub mod listing;
pub mod names;
pub mod records;
pub mod reads;
pub mod udf;
pub mod volumes;

verus! {

/// A disc image's sectors are 2048 bytes on every optical medium this
/// parser is for, and both formats' fixed locations are stated in them:
/// ISO 9660's primary volume descriptor at sector 16, UDF's anchor at
/// sector 256.
pub const SECTOR: u64 = 2048;

/// The index read budget, per image. Generous against any real disc, and
/// small enough that a hostile image cannot turn an index into a download.
pub const INDEX_READ_BUDGET: u64 = 8_388_608;

/// An image as the parsers see it: how long it says it is, and the bytes
/// that are really there.
pub struct Image {
    pub len: nat,
    pub bytes: Seq<u8>,
}

/// Random access to an image's bytes, and nothing more: a file, a slice in
/// memory, a torrent's piece store, a ranged HTTP entity.
pub trait ImageReader: Send + Sync {
    /// The image behind the reader.
    spec fn image(&self) -> Image;

    /// Whether every read succeeds.
    spec fn reliable(&self) -> bool;

    /// The image's length in bytes. Known up front for every source there
    /// is; an index cannot be bounded against an unknown end.
    fn len(&self) -> (n: u64)
        ensures
            n == self.image().len,
    ;

    /// Whether the image is empty.
    fn is_empty(&self) -> (r: bool)
        ensures
            r == (self.image().len == 0),
    {
        self.len() == 0
    }

    /// Up to `buf.len()` bytes at `offset`, and how many there were. Zero
    /// means that no byte of the image is at `offset`. A failure is told in
    /// words.
    fn read_at(&self, offset: u64, buf: &mut [u8]) -> (r: Result<usize, String>)
        ensures
            final(buf)@.len() == old(buf)@.len(),
            match r {
                Ok(n) => {
                    &&& n <= old(buf)@.len()
                    &&& n > 0 ==> offset + n <= self.image().bytes.len()
                    &&& n == 0 && old(buf)@.len() > 0 ==> offset >= self.image().bytes.len()
                    &&& forall|i: int|
                        0 <= i < n ==> final(buf)@[i] == self.image().bytes[offset + i]
                },
                Err(_) => !self.reliable(),
            },
    ;
}

/// An image held in memory, for tests and for the caller that already has
/// the bytes.
pub struct MemoryImage(pub Arc<Vec<u8>>);

impl MemoryImage {
    pub fn new(bytes: Vec<u8>) -> (image: MemoryImage)
        ensures
            image.image() == (Image { len: bytes@.len(), bytes: bytes@ }),
            image.reliable(),
    {
        MemoryImage(Arc::new(bytes))
    }
}

impl ImageReader for MemoryImage {
    open spec fn image(&self) -> Image {
        Image { len: self.0@.len(), bytes: self.0@ }
    }

    open spec fn reliable(&self) -> bool {
        true
    }

    fn len(&self) -> (n: u64) {
        self.0.len() as u64
    }

    fn read_at(&self, offset: u64, buf: &mut [u8]) -> (r: Result<usize, String>) {
        let len: usize = self.0.len();
        if offset >= len as u64 {
            return Ok(0);
        }
        let start: usize = offset as usize;
        let room: usize = len - start;
        let n: usize = if buf.len() < room {
            buf.len()
        } else {
            room
        };
        let mut i: usize = 0;
        while i < n
            invariant
                i <= n <= buf@.len(),
                buf@.len() == old(buf)@.len(),
                start + n <= len,
                len == self.0@.len(),
                forall|j: int| 0 <= j < i ==> buf@[j] == self.0@[start + j],
            decreases n - i,
        {
            buf[i] = self.0[start + i];
            i += 1;
        }
        Ok(n)
    }
}

/// One contiguous run of the image's bytes.
#[derive(Debug, Clone, Copy, PartialEq, Eq, Structural)]
pub struct Extent {
    /// Byte offset in the image itself, not in the file.
    pub offset: u64,
    pub len: u64,
}

impl Extent {
    /// The end offset, or `None` if the image claims a range that does not
    /// fit in a `u64`.
    pub fn end(&self) -> (r: Option<u64>)
        ensures
            r == (if self.offset + self.len <= u64::MAX {
                Some((self.offset + self.len) as u64)
            } else {
                None
            }),
    {
        self.offset.checked_add(self.len)
    }
}

/// A file inside an image: its path, its length, and the image's byte
/// ranges that hold its data, in order.
#[derive(Debug, Clone, PartialEq, Eq)]
pub struct ImageFile {
    /// Absolute path inside the image, `/`-separated, with a leading `/`.
    pub path: String,
    /// The file's length as the image states it.
    pub len: u64,
    /// In order. Several extents mean one file written in several pieces.
    pub extents: Vec<Extent>,
}

/// What an [`ImageFile`] says.
pub struct FileView {
    pub path: Seq<char>,
    pub len: nat,
    pub extents: Seq<Extent>,
}

impl View for ImageFile {
    type V = FileView;

    open spec fn view(&self) -> FileView {
        FileView { path: self.path@, len: self.len as nat, extents: self.extents@ }
    }
}

/// Which format the index was read through.
#[derive(Debug, Clone, Copy, PartialEq, Eq)]
pub enum ImageFormat {
    /// ISO 9660. `joliet` is set when the names came from a Joliet
    /// supplementary descriptor, `rock_ridge` when any name came from a
    /// Rock Ridge `NM` entry.
    Iso9660 { joliet: bool, rock_ridge: bool },
    /// UDF, at the revision the logical volume's domain identifier states
    /// (`0x0250` for the Blu-ray case), or `None` when it states none.
    Udf { revision: Option<u16> },
}

/// Two hexadecimal digits.
pub open spec fn hex2(n: int) -> Seq<char> {
    seq![crate::text::hex_digit(n / 16), crate::text::hex_digit(n % 16)]
}

/// A format in words.
pub open spec fn format_text(format: ImageFormat) -> Seq<char> {
    match format {
        ImageFormat::Iso9660 { joliet, rock_ridge } => {
            "ISO 9660"@ + (if joliet {
                " + Joliet"@
            } else {
                ""@
            }) + (if rock_ridge {
                " + Rock Ridge"@
            } else {
                ""@
            })
        },
        ImageFormat::Udf { revision } => match revision {
            Some(r) => "UDF "@ + crate::text::hex((r / 256) as nat) + "."@ + hex2((r % 256) as int),
            None => "UDF"@,
        },
    }
}

impl ImageFormat {
    /// The format in words.
    pub fn text(&self) -> (s: String)
        ensures
            s@ == format_text(*self),
    {
        match self {
            ImageFormat::Iso9660 { joliet, rock_ridge } => {
                let j = if *joliet {
                    " + Joliet"
                } else {
                    ""
                };
                let r = if *rock_ridge {
                    " + Rock Ridge"
                } else {
                    ""
                };
                cat3("ISO 9660", j, r)
            },
            ImageFormat::Udf { revision } => match revision {
                Some(r) => {
                    let major = hexadecimal((*r / 256) as u64);
                    let minor: u16 = *r % 256;
                    let mut s = cat3("UDF ", major.as_str(), ".");
                    let high = hexadecimal((minor / 16) as u64);
                    let low = hexadecimal((minor % 16) as u64);
                    s.push_str(high.as_str());
                    s.push_str(low.as_str());
                    proof {
                        assert(high@ + low@ =~= hex2(minor as int));
                        assert(s@ =~= "UDF "@ + major@ + "."@ + (high@ + low@));
                    }
                    s
                },
                None => "UDF".to_owned(),
            },
        }
    }
}

/// What an image holds.
#[derive(Debug, Clone, PartialEq, Eq)]
pub struct ImageIndex {
    pub format: ImageFormat,
    /// Every regular file, in the order the tree was walked. Directories
    /// are not here: a directory is not a file and has no bytes to serve.
    pub files: Vec<ImageFile>,
}

/// What an [`ImageIndex`] says.
pub struct IndexView {
    pub format: ImageFormat,
    pub files: Seq<FileView>,
}

/// What a list of files says.
pub open spec fn files_view(files: Seq<ImageFile>) -> Seq<FileView> {
    files.map_values(|f: ImageFile| f@)
}

impl View for ImageIndex {
    type V = IndexView;

    open spec fn view(&self) -> IndexView {
        IndexView { format: self.format, files: files_view(self.files@) }
    }
}

/// Why an image was not indexed. Every variant names something concrete.
#[derive(Debug, Clone, PartialEq, Eq)]
pub enum Refusal {
    /// Nothing at the fixed locations both formats put their descriptors
    /// at. Not an image, or an image of a filesystem this is not for.
    NotAnImage { detail: String },
    /// A structure this parser does not implement, named.
    Unsupported { format: &'static str, what: String },
    /// The image contradicts itself, or points outside itself, or is
    /// truncated.
    Malformed { format: &'static str, detail: String },
    /// The image, or the part of it the index needs, is encrypted.
    Encrypted { format: &'static str },
    /// The reader failed. The image may be fine; these bytes are not
    /// available.
    Unreadable { detail: String },
}

/// What a [`Refusal`] says.
pub enum RefusalView {
    NotAnImage { detail: Seq<char> },
    Unsupported { format: Seq<char>, what: Seq<char> },
    Malformed { format: Seq<char>, detail: Seq<char> },
    Encrypted { format: Seq<char> },
    Unreadable { detail: Seq<char> },
}

impl View for Refusal {
    type V = RefusalView;

    open spec fn view(&self) -> RefusalView {
        match self {
            Refusal::NotAnImage { detail } => RefusalView::NotAnImage { detail: detail@ },
            Refusal::Unsupported { format, what } => RefusalView::Unsupported {
                format: format@,
                what: what@,
            },
            Refusal::Malformed { format, detail } => RefusalView::Malformed {
                format: format@,
                detail: detail@,
            },
            Refusal::Encrypted { format } => RefusalView::Encrypted { format: format@ },
            Refusal::Unreadable { detail } => RefusalView::Unreadable { detail: detail@ },
        }
    }
}

/// A refusal in words.
pub open spec fn refusal_text(r: RefusalView) -> Seq<char> {
    match r {
        RefusalView::NotAnImage { detail } => "not a disc image: "@ + detail,
        RefusalView::Unsupported { format, what } => format + " image uses "@ + what
            + ", which is not supported"@,
        RefusalView::Malformed { format, detail } => "malformed "@ + format + " image: "@ + detail,
        RefusalView::Encrypted { format } => format + " image is encrypted"@,
        RefusalView::Unreadable { detail } => "image could not be read: "@ + detail,
    }
}

impl Refusal {
    /// The refusal in words.
    pub fn text(&self) -> (s: String)
        ensures
            s@ == refusal_text(self@),
    {
        match self {
            Refusal::NotAnImage { detail } => cat2("not a disc image: ", detail.as_str()),
            Refusal::Unsupported { format, what } => {
                crate::text::cat4(format, " image uses ", what.as_str(), ", which is not supported")
            },
            Refusal::Malformed { format, detail } => {
                crate::text::cat4("malformed ", format, " image: ", detail.as_str())
            },
            Refusal::Encrypted { format } => cat2(format, " image is encrypted"),
            Refusal::Unreadable { detail } => cat2("image could not be read: ", detail.as_str()),
        }
    }
}

/// What a failed read is told as.
pub open spec fn failed_read(at: nat, why: Seq<char>) -> Seq<char> {
    "read at "@ + crate::text::dec(at) + " failed: "@ + why
}

/// Whether a refusal is a read of `reader` that failed. A reader whose every
/// read succeeds never gives one.
pub open spec fn read_failed<R: ImageReader>(reader: &R, r: Refusal) -> bool {
    &&& !reader.reliable()
    &&& r matches Refusal::Unreadable { detail } && exists|at: nat, why: Seq<char>|
        detail@ == #[trigger] failed_read(at, why)
}

/// A structure of a format that is not what the format says it is.
pub open spec fn malformed(format: Seq<char>, detail: Seq<char>) -> RefusalView {
    RefusalView::Malformed { format, detail }
}

/// A refusal of the format `own`, as a budget that reads for another format
/// tells it.
pub open spec fn told_as(r: RefusalView, own: Seq<char>, format: Seq<char>) -> RefusalView {
    match r {
        RefusalView::Unsupported { format: f, what } if f == own => RefusalView::Unsupported {
            format,
            what,
        },
        RefusalView::Malformed { format: f, detail } if f == own => RefusalView::Malformed {
            format,
            detail,
        },
        _ => r,
    }
}

/// What reading `len` bytes at `offset` gives, once `used` bytes of the
/// budget are spent.
pub open spec fn read_spec(
    image: Image,
    format: Seq<char>,
    used: nat,
    offset: nat,
    len: nat,
) -> Result<Seq<u8>, RefusalView> {
    if used + len > INDEX_READ_BUDGET {
        Err(
            malformed(
                format,
                "index reads exceed the 8388608-byte budget (used "@ + crate::text::dec(used)
                    + " so far)"@,
            ),
        )
    } else if offset + len > u64::MAX {
        Err(
            malformed(
                format,
                "a structure at offset "@ + crate::text::dec(offset) + " claims "@
                    + crate::text::dec(len) + " bytes, which overflows"@,
            ),
        )
    } else if offset + len > image.len {
        Err(
            malformed(
                format,
                "a structure at offset "@ + crate::text::dec(offset) + " claims "@
                    + crate::text::dec(len) + " bytes, past the image's "@ + crate::text::dec(
                    image.len,
                ) + " bytes"@,
            ),
        )
    } else if len > 0 && offset + len > image.bytes.len() {
        let got: nat = if offset < image.bytes.len() {
            (image.bytes.len() - offset) as nat
        } else {
            0
        };
        Err(
            malformed(
                format,
                "image ends inside a structure at offset "@ + crate::text::dec(offset) + " ("@
                    + crate::text::dec(len) + " bytes wanted, "@ + crate::text::dec(got)
                    + " read)"@,
            ),
        )
    } else if len == 0 {
        Ok(Seq::empty())
    } else {
        Ok(image.bytes.subrange(offset as int, (offset + len) as int))
    }
}

/// What reading one sector gives.
pub open spec fn read_sector_spec(
    image: Image,
    format: Seq<char>,
    used: nat,
    sector: nat,
) -> Result<Seq<u8>, RefusalView> {
    if sector * SECTOR > u64::MAX {
        Err(
            malformed(
                format,
                "sector number "@ + crate::text::dec(sector) + " overflows a byte offset"@,
            ),
        )
    } else {
        read_spec(image, format, used, sector * SECTOR as nat, SECTOR as nat)
    }
}

/// How many bytes an index is allowed to read.
///
/// Not a guideline: the parsers go through this and nothing else, so an
/// image that would make the walk read forever stops at a stated number with
/// a refusal that says so.
pub struct Budget<'a, R: ImageReader> {
    reader: &'a R,
    /// Bytes still allowed.
    left: u64,
    /// Bytes actually read.
    used: u64,
    format: &'static str,
}

impl<'a, R: ImageReader> Budget<'a, R> {
    /// What is left and what is used are the whole budget.
    pub closed spec fn well_formed(&self) -> bool {
        self.left + self.used == INDEX_READ_BUDGET
    }

    /// The reader behind the budget.
    pub closed spec fn source(&self) -> R {
        *self.reader
    }

    /// Bytes read so far.
    pub closed spec fn spent(&self) -> nat {
        self.used as nat
    }

    /// The format that refusals name.
    pub closed spec fn format_name(&self) -> Seq<char> {
        self.format@
    }

    /// No more than the budget is ever read.
    pub proof fn lemma_within_budget(&self)
        requires
            self.well_formed(),
        ensures
            self.spent() <= INDEX_READ_BUDGET,
    {
    }

    pub fn new(reader: &'a R, format: &'static str) -> (b: Self)
        ensures
            b.well_formed(),
            b.source() == *reader,
            b.spent() == 0,
            b.format_name() == format@,
    {
        Budget { reader, left: INDEX_READ_BUDGET, used: 0, format }
    }

    pub fn used(&self) -> (n: u64)
        ensures
            n == self.spent(),
    {
        self.used
    }

    pub fn image_len(&self) -> (n: u64)
        ensures
            n == self.source().image().len,
    {
        self.reader.len()
    }

    /// Exactly `len` bytes at `offset`. A short read is the image ending
    /// early, which for a structure the index needs is a truncated image
    /// and therefore malformed.
    pub fn read_exact(&mut self, offset: u64, len: usize) -> (r: Result<Vec<u8>, Refusal>)
        requires
            old(self).well_formed(),
        ensures
            final(self).well_formed(),
            final(self).source() == old(self).source(),
            final(self).format_name() == old(self).format_name(),
            ({
                let read = read_spec(
                    old(self).source().image(),
                    old(self).format_name(),
                    old(self).spent(),
                    offset as nat,
                    len as nat,
                );
                match r {
                    Ok(bytes) => read == Ok::<Seq<u8>, RefusalView>(bytes@) && bytes@.len() == len
                        && final(self).spent() == old(self).spent() + len,
                    Err(e) => final(self).spent() == old(self).spent() && (read == Err::<
                        Seq<u8>,
                        RefusalView,
                    >(e@) || read_failed(&old(self).source(), e)),
                }
            }),
    {
        let need: u64 = len as u64;
        if need > self.left {
            let used = decimal(self.used);
            let detail = cat3(
                "index reads exceed the 8388608-byte budget (used ",
                used.as_str(),
                " so far)",
            );
            return Err(Refusal::Malformed { format: self.format, detail });
        }
        let at = decimal(offset);
        let wanted = decimal(need);
        let end: u64 = match offset.checked_add(need) {
            Some(end) => end,
            None => {
                let detail = cat5(
                    "a structure at offset ",
                    at.as_str(),
                    " claims ",
                    wanted.as_str(),
                    " bytes, which overflows",
                );
                return Err(Refusal::Malformed { format: self.format, detail });
            },
        };
        if end > self.reader.len() {
            let whole = decimal(self.reader.len());
            let detail = cat7(
                "a structure at offset ",
                at.as_str(),
                " claims ",
                wanted.as_str(),
                " bytes, past the image's ",
                whole.as_str(),
                " bytes",
            );
            return Err(Refusal::Malformed { format: self.format, detail });
        }
        let ghost image = self.reader.image();
        let mut out: Vec<u8> = Vec::new();
        while out.len() < len
            invariant
                need == len,
                out@.len() <= len,
                offset + len <= u64::MAX,
                offset + len <= image.len,
                image == self.reader.image(),
                *self == *old(self),
                self.well_formed(),
                self.used + len <= INDEX_READ_BUDGET,
                at@ == crate::text::dec(offset as nat),
                wanted@ == crate::text::dec(len as nat),
                out@.len() > 0 ==> offset + out@.len() <= image.bytes.len(),
                forall|i: int| 0 <= i < out@.len() ==> out@[i] == image.bytes[offset + i],
            decreases len - out.len(),
        {
            let got: usize = out.len();
            let place: u64 = offset + got as u64;
            let room: usize = len - got;
            let mut chunk: Vec<u8> = vec![0u8; room];
            let n: usize = match self.reader.read_at(place, chunk.as_mut_slice()) {
                Ok(n) => n,
                Err(why) => {
                    let here = decimal(place);
                    let detail = crate::text::cat4(
                        "read at ",
                        here.as_str(),
                        " failed: ",
                        why.as_str(),
                    );
                    proof {
                        assert(detail@ == failed_read(place as nat, why@));
                    }
                    return Err(Refusal::Unreadable { detail });
                },
            };
            if n == 0 {
                let read = decimal(got as u64);
                let detail = cat7(
                    "image ends inside a structure at offset ",
                    at.as_str(),
                    " (",
                    wanted.as_str(),
                    " bytes wanted, ",
                    read.as_str(),
                    " read)",
                );
                return Err(Refusal::Malformed { format: self.format, detail });
            }
            let ghost before = out@;
            out.extend_from_slice(slice_subrange(chunk.as_slice(), 0, n));
            proof {
                assert(out@ =~= before + chunk@.subrange(0, n as int));
                assert forall|i: int| 0 <= i < out@.len() implies out@[i] == image.bytes[offset
                    + i] by {
                    if i >= got {
                        assert(out@[i] == chunk@[i - got]);
                        assert(chunk@[i - got] == image.bytes[place + (i - got)]);
                    }
                }
            }
        }
        proof {
            if len > 0 {
                assert(out@ =~= image.bytes.subrange(offset as int, offset + len));
            } else {
                assert(out@ =~= Seq::empty());
            }
        }
        self.left -= need;
        self.used += need;
        Ok(out)
    }

    /// One sector, or a refusal. The common case of [`Budget::read_exact`].
    pub fn read_sector(&mut self, sector: u64) -> (r: Result<Vec<u8>, Refusal>)
        requires
            old(self).well_formed(),
        ensures
            final(self).well_formed(),
            final(self).source() == old(self).source(),
            final(self).format_name() == old(self).format_name(),
            ({
                let read = read_sector_spec(
                    old(self).source().image(),
                    old(self).format_name(),
                    old(self).spent(),
                    sector as nat,
                );
                match r {
                    Ok(bytes) => read == Ok::<Seq<u8>, RefusalView>(bytes@) && bytes@.len()
                        == SECTOR && final(self).spent() == old(self).spent() + SECTOR,
                    Err(e) => final(self).spent() == old(self).spent() && (read == Err::<
                        Seq<u8>,
                        RefusalView,
                    >(e@) || read_failed(&old(self).source(), e)),
                }
            }),
    {
        match sector.checked_mul(SECTOR) {
            Some(offset) => self.read_exact(offset, SECTOR as usize),
            None => {
                let number = decimal(sector);
                let detail = cat3(
                    "sector number ",
                    number.as_str(),
                    " overflows a byte offset",
                );
                Err(Refusal::Malformed { format: self.format, detail })
            },
        }
    }

    pub fn malformed(&self, detail: &str) -> (r: Refusal)
        ensures
            r@ == (RefusalView::Malformed { format: self.format_name(), detail: detail@ }),
    {
        Refusal::Malformed { format: self.format, detail: detail.to_owned() }
    }

    pub fn unsupported(&self, what: &str) -> (r: Refusal)
        ensures
            r@ == (RefusalView::Unsupported { format: self.format_name(), what: what@ }),
    {
        Refusal::Unsupported { format: self.format, what: what.to_owned() }
    }
}

/// However hostile an image is, its index never reads more than the budget.
pub proof fn no_index_reads_more_than_its_budget<'a, R: ImageReader>(budget: Budget<'a, R>)
    requires
        budget.well_formed(),
    ensures
        budget.spent() <= INDEX_READ_BUDGET,
{
}

/// Two bytes as a number, the less significant first.
pub open spec fn u16_at(b: Seq<u8>, at: int) -> int {
    b[at] + 256 * b[at + 1]
}

/// Four bytes as a number, the less significant first.
pub open spec fn u32_at(b: Seq<u8>, at: int) -> int {
    u16_at(b, at) + 65536 * u16_at(b, at + 2)
}

/// Eight bytes as a number, the less significant first.
pub open spec fn u64_at(b: Seq<u8>, at: int) -> int {
    u32_at(b, at) + 4294967296 * u32_at(b, at + 4)
}

/// The number in two bytes at `at`, or `None` where the bytes end first.
pub fn le_u16(b: &[u8], at: usize) -> (r: Option<u16>)
    ensures
        match r {
            Some(n) => at + 2 <= b@.len() && n == u16_at(b@, at as int),
            None => at + 2 > b@.len(),
        },
{
    if at > b.len() || b.len() - at < 2 {
        return None;
    }
    Some(b[at] as u16 + 256 * (b[at + 1] as u16))
}

/// The number in four bytes at `at`, or `None` where the bytes end first.
pub fn le_u32(b: &[u8], at: usize) -> (r: Option<u32>)
    ensures
        match r {
            Some(n) => at + 4 <= b@.len() && n == u32_at(b@, at as int),
            None => at + 4 > b@.len(),
        },
{
    if at > b.len() || b.len() - at < 4 {
        return None;
    }
    let low: u32 = b[at] as u32 + 256 * (b[at + 1] as u32);
    let high: u32 = b[at + 2] as u32 + 256 * (b[at + 3] as u32);
    Some(low + 65536 * high)
}

/// The number in eight bytes at `at`, or `None` where the bytes end first.
pub fn le_u64(b: &[u8], at: usize) -> (r: Option<u64>)
    ensures
        match r {
            Some(n) => at + 8 <= b@.len() && n == u64_at(b@, at as int),
            None => at + 8 > b@.len(),
        },
{
    if at > b.len() || b.len() - at < 8 {
        return None;
    }
    match (le_u32(b, at), le_u32(b, at + 4)) {
        (Some(low), Some(high)) => Some(low as u64 + 4294967296 * (high as u64)),
        _ => None,
    }
}

/// How many bytes a list of extents covers.
pub open spec fn total_len(extents: Seq<Extent>) -> nat
    decreases extents.len(),
{
    if extents.len() == 0 {
        0
    } else {
        extents[0].len as nat + total_len(extents.skip(1))
    }
}

/// The extents that hold the first `len` bytes, none of them empty.
pub open spec fn first_bytes(extents: Seq<Extent>, len: nat) -> Seq<Extent>
    decreases extents.len(),
{
    if extents.len() == 0 || len == 0 {
        Seq::empty()
    } else if extents[0].len == 0 {
        first_bytes(extents.skip(1), len)
    } else if extents[0].len > len {
        seq![Extent { offset: extents[0].offset, len: len as u64 }]
    } else {
        seq![extents[0]] + first_bytes(extents.skip(1), (len - extents[0].len) as nat)
    }
}

/// Trim a file's extents so that they cover exactly `len` bytes.
///
/// Both formats round the last extent up to a block boundary, and UDF
/// states the real length separately in the file entry. Extents that cover
/// less than the stated length are a contradiction the caller refuses; this
/// returns how many bytes are covered so it can.
pub fn trim_to_len(extents: &mut Vec<Extent>, len: u64) -> (kept: u64)
    ensures
        final(extents)@ == first_bytes(old(extents)@, len as nat),
        kept == (if total_len(old(extents)@) < len {
            total_len(old(extents)@)
        } else {
            len as nat
        }),
{
    let mut out: Vec<Extent> = Vec::new();
    let mut kept: u64 = 0;
    let mut i: usize = 0;
    let ghost all = extents@;
    proof {
        assert(all.skip(0) =~= all);
        assert(Seq::<Extent>::empty() + first_bytes(all, len as nat) =~= first_bytes(
            all,
            len as nat,
        ));
    }
    while i < extents.len() && kept < len
        invariant
            i <= extents@.len(),
            extents@ == all,
            kept <= len,
            total_len(all) == kept + total_len(all.skip(i as int)) || (kept == len && total_len(all)
                >= len),
            first_bytes(all, len as nat) == out@ + first_bytes(
                all.skip(i as int),
                (len - kept) as nat,
            ),
        decreases extents@.len() - i,
    {
        let e: Extent = extents[i];
        let room: u64 = len - kept;
        let ghost rest = all.skip(i as int);
        let ghost before = out@;
        proof {
            assert(rest[0] == e);
            assert(rest.skip(1) =~= all.skip(i + 1));
        }
        if e.len > room {
            out.push(Extent { offset: e.offset, len: room });
            kept = len;
            proof {
                assert(before.push(Extent { offset: e.offset, len: room }) + first_bytes(
                    all.skip(i + 1),
                    0,
                ) =~= before + seq![Extent { offset: e.offset, len: room }]);
            }
        } else {
            if e.len > 0 {
                out.push(e);
                proof {
                    let tail = first_bytes(all.skip(i + 1), (room - e.len) as nat);
                    assert(before.push(e) + tail =~= before + (seq![e] + tail));
                }
            }
            kept += e.len;
        }
        i += 1;
    }
    proof {
        assert(out@ + Seq::<Extent>::empty() =~= out@);
        assert(total_len(all.skip(i as int)) == 0 || kept == len);
    }
    *extents = out;
    kept
}

/// Trimmed extents cover exactly the stated length, or all there is where
/// that is less.
pub proof fn trimmed_extents_cover_the_stated_length(extents: Seq<Extent>, len: nat)
    requires
        len <= u64::MAX,
    ensures
        total_len(first_bytes(extents, len)) == if total_len(extents) < len {
            total_len(extents)
        } else {
            len
        },
    decreases extents.len(),
{
    if extents.len() > 0 && len > 0 {
        let rest = extents.skip(1);
        if extents[0].len == 0 {
            trimmed_extents_cover_the_stated_length(rest, len);
        } else if extents[0].len > len {
            let cut = seq![Extent { offset: extents[0].offset, len: len as u64 }];
            assert(cut.skip(1) =~= Seq::empty());
            assert(total_len(cut.skip(1)) == 0);
            assert(total_len(cut) == len);
        } else {
            let left = (len - extents[0].len) as nat;
            trimmed_extents_cover_the_stated_length(rest, left);
            let kept = seq![extents[0]] + first_bytes(rest, left);
            assert(kept.skip(1) =~= first_bytes(rest, left));
            assert(total_len(kept) == extents[0].len + total_len(first_bytes(rest, left)));
        }
    }
}

/// Whether one run of bytes lies inside another.
pub open spec fn inside(inner: Extent, outer: Extent) -> bool {
    outer.offset <= inner.offset && inner.offset + inner.len <= outer.offset + outer.len
}

/// Trimming never reaches outside the extents it trims, and leaves no empty
/// one.
pub proof fn trimmed_extents_lie_inside_the_given_ones(extents: Seq<Extent>, len: nat, i: int)
    requires
        len <= u64::MAX,
        0 <= i < first_bytes(extents, len).len(),
    ensures
        first_bytes(extents, len)[i].len > 0,
        exists|j: int|
            0 <= j < extents.len() && #[trigger] inside(first_bytes(extents, len)[i], extents[j]),
    decreases extents.len(),
{
    let rest = extents.skip(1);
    let e = first_bytes(extents, len)[i];
    if extents[0].len == 0 {
        trimmed_extents_lie_inside_the_given_ones(rest, len, i);
        let j = choose|j: int| 0 <= j < rest.len() && #[trigger] inside(e, rest[j]);
        assert(inside(e, extents[j + 1]));
    } else if i == 0 {
        assert(inside(e, extents[0]));
    } else {
        let left = (len - extents[0].len) as nat;
        trimmed_extents_lie_inside_the_given_ones(rest, left, i - 1);
        let j = choose|j: int| 0 <= j < rest.len() && #[trigger] inside(e, rest[j]);
        assert(inside(e, extents[j + 1]));
    }
}

/// Whether an extent lies inside an image of a length.
pub open spec fn fits(e: Extent, image_len: nat) -> bool {
    e.offset + e.len <= image_len
}

/// What is wrong with an extent that does not lie inside the image.
pub open spec fn misfit_text(e: Extent, image_len: nat) -> Seq<char> {
    if e.offset + e.len > u64::MAX {
        "an extent at "@ + crate::text::dec(e.offset as nat) + " claims "@ + crate::text::dec(
            e.len as nat,
        ) + " bytes, which overflows"@
    } else {
        "an extent at "@ + crate::text::dec(e.offset as nat) + " claims "@ + crate::text::dec(
            e.len as nat,
        ) + " bytes, past the image's "@ + crate::text::dec(image_len) + " bytes"@
    }
}

/// The first extent that does not lie inside the image, told in words.
pub open spec fn within_spec(extents: Seq<Extent>, image_len: nat) -> Result<(), Seq<char>>
    decreases extents.len(),
{
    if extents.len() == 0 {
        Ok(())
    } else if !fits(extents[0], image_len) {
        Err(misfit_text(extents[0], image_len))
    } else {
        within_spec(extents.skip(1), image_len)
    }
}

/// Every extent lies inside the image, and none of them overflows.
pub fn extents_within(extents: &[Extent], image_len: u64) -> (r: Result<(), String>)
    ensures
        match r {
            Ok(()) => within_spec(extents@, image_len as nat) is Ok,
            Err(s) => within_spec(extents@, image_len as nat) == Err::<(), Seq<char>>(s@),
        },
        r is Ok <==> forall|i: int|
            0 <= i < extents@.len() ==> #[trigger] fits(extents@[i], image_len as nat),
{
    let mut i: usize = 0;
    proof {
        assert(extents@.skip(0) =~= extents@);
    }
    while i < extents.len()
        invariant
            i <= extents@.len(),
            within_spec(extents@, image_len as nat) == within_spec(
                extents@.skip(i as int),
                image_len as nat,
            ),
            forall|j: int| 0 <= j < i ==> #[trigger] fits(extents@[j], image_len as nat),
        decreases extents@.len() - i,
    {
        let e: Extent = extents[i];
        proof {
            assert(extents@.skip(i as int)[0] == e);
            assert(extents@.skip(i as int).skip(1) =~= extents@.skip(i + 1));
            assert(fits(extents@[i as int], image_len as nat) == fits(e, image_len as nat));
        }
        let at = decimal(e.offset);
        let claimed = decimal(e.len);
        match e.end() {
            Some(end) => {
                if end > image_len {
                    let whole = decimal(image_len);
                    return Err(
                        cat7(
                            "an extent at ",
                            at.as_str(),
                            " claims ",
                            claimed.as_str(),
                            " bytes, past the image's ",
                            whole.as_str(),
                            " bytes",
                        ),
                    );
                }
            },
            None => {
                return Err(
                    cat5(
                        "an extent at ",
                        at.as_str(),
                        " claims ",
                        claimed.as_str(),
                        " bytes, which overflows",
                    ),
                );
            },
        }
        i += 1;
    }
    Ok(())
}

/// The index of an image: ISO 9660 first, because a bridge disc holds the
/// same files in both trees and the 9660 tree is the cheaper walk; UDF where
/// there is no ISO 9660 descriptor at all.
pub open spec fn index_spec(image: Image) -> Result<IndexView, RefusalView> {
    match iso9660::index_spec(image) {
        Err(RefusalView::NotAnImage { detail }) => match udf::index_spec(image) {
            Err(RefusalView::NotAnImage { detail: udf_detail }) => Err(
                RefusalView::NotAnImage { detail: detail + "; "@ + udf_detail },
            ),
            other => other,
        },
        other => other,
    }
}

/// Index whatever the image is.
///
/// The refusal returned when neither format recognises the image is the
/// ISO 9660 one only when that parser got far enough to recognise something;
/// otherwise the UDF refusal is the more informative and is what comes back.
pub fn index<R: ImageReader>(reader: &R) -> (r: Result<ImageIndex, Refusal>)
    ensures
        match r {
            Ok(index) => index_spec(reader.image()) == Ok::<IndexView, RefusalView>(index@),
            Err(e) => index_spec(reader.image()) == Err::<IndexView, RefusalView>(e@)
                || read_failed(reader, e),
        },
{
    match iso9660::index(reader) {
        Ok(index) => Ok(index),
        Err(Refusal::NotAnImage { detail }) => match udf::index(reader) {
            Ok(index) => Ok(index),
            Err(Refusal::NotAnImage { detail: udf_detail }) => Err(
                Refusal::NotAnImage { detail: cat3(detail.as_str(), "; ", udf_detail.as_str()) },
            ),
            Err(other) => Err(other),
        },
        Err(other) => Err(other),
    }
}

} // verus!
