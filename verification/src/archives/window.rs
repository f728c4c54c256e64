//! One member of an archive as a reader over the archive itself.
//!
//! A member that is *stored* is a plain byte range of the archive, so serving
//! it needs no decoding and no second copy on disk: a [`MemberWindow`] over
//! whatever the archive is read through answers every read and every seek in
//! the member's own coordinates.
use vstd::prelude::*;

verus! {

/// Where a seek goes.
#[derive(Debug, Clone, Copy, PartialEq, Eq, Structural)]
pub enum SeekFrom {
    Start(u64),
    End(i64),
    Current(i64),
}

/// What a seek before the start of a member says.
pub const NEGATIVE_SEEK: &'static str = "Negative seek";

/// A number held to the range of an offset.
pub open spec fn saturated(n: int) -> int {
    if n < 0 {
        0
    } else if n > u64::MAX {
        u64::MAX as int
    } else {
        n
    }
}

/// `len` bytes of an archive starting at `start`, as a reader whose own
/// position 0 is that start and whose end is that length.
#[derive(Debug, Clone, Copy, PartialEq, Eq, Structural)]
pub struct MemberWindow {
    start: u64,
    len: u64,
    pos: u64,
}

/// What a [`MemberWindow`] is.
pub struct WindowView {
    pub start: u64,
    pub len: u64,
    /// Position inside the window.
    pub pos: u64,
}

impl View for MemberWindow {
    type V = WindowView;

    closed spec fn view(&self) -> WindowView {
        WindowView { start: self.start, len: self.len, pos: self.pos }
    }
}

/// Where a seek goes in the member's own coordinates: nowhere where that is
/// before its start.
pub open spec fn target(w: WindowView, to: SeekFrom) -> Option<int> {
    match to {
        SeekFrom::Start(n) => Some(n as int),
        SeekFrom::End(n) => Some(saturated(w.len + n)),
        SeekFrom::Current(n) => if w.pos + n < 0 {
            None
        } else {
            Some(w.pos + n)
        },
    }
}

/// How many bytes a read of up to `remaining` takes from a window: past the
/// member's end is the member's end, whatever the archive still has after
/// it.
pub open spec fn wanted(w: WindowView, remaining: int) -> int {
    let left = if w.pos < w.len {
        w.len - w.pos
    } else {
        0
    };
    if remaining <= left {
        remaining
    } else {
        left
    }
}

impl MemberWindow {
    /// The window, at its start. The archive is to be positioned at `start`.
    pub fn new(start: u64, len: u64) -> (w: Self)
        ensures
            w@ == (WindowView { start, len, pos: 0 }),
    {
        MemberWindow { start, len, pos: 0 }
    }

    /// How many bytes to read from the archive for a reader that takes up to
    /// `remaining`: none is the member's end.
    pub fn want(&self, remaining: usize) -> (n: usize)
        ensures
            n == wanted(self@, remaining as int),
    {
        let left: u64 = self.len.saturating_sub(self.pos);
        if remaining as u64 <= left {
            remaining
        } else {
            left as usize
        }
    }

    /// Take in what the archive gave of a read.
    pub fn read(&mut self, got: usize)
        requires
            got <= wanted(old(self)@, usize::MAX as int),
        ensures
            final(self)@ == (WindowView { pos: (old(self)@.pos + got) as u64, ..old(self)@ }),
    {
        self.pos = self.pos + got as u64;
    }

    /// Where to seek in the archive. Every form is resolved against the
    /// window's own length and position: the archive knows nothing of the
    /// member and its end is not the member's.
    pub fn start_seek(&self, to: SeekFrom) -> (r: Result<u64, String>)
        requires
            to matches SeekFrom::Current(n) ==> self@.pos <= i64::MAX && self@.pos + n <= i64::MAX,
        ensures
            match (r, target(self@, to)) {
                (Ok(inner), Some(t)) => inner == saturated(self@.start + t),
                (Err(e), None) => e@ == NEGATIVE_SEEK@,
                _ => false,
            },
    {
        let target: u64 = match to {
            SeekFrom::Start(n) => n,
            SeekFrom::End(n) => {
                if n < 0 {
                    let back: u64 = (-(n as i128)) as u64;
                    self.len.saturating_sub(back)
                } else {
                    self.len.saturating_add(n as u64)
                }
            },
            SeekFrom::Current(n) => {
                let there: i64 = self.pos as i64 + n;
                if there < 0 {
                    return Err(NEGATIVE_SEEK.to_owned());
                }
                there as u64
            },
        };
        Ok(self.start.saturating_add(target))
    }

    /// The archive is positioned at `landed`: where that is in the member.
    pub fn poll_complete(&mut self, landed: u64) -> (pos: u64)
        ensures
            pos == saturated(landed - old(self)@.start),
            final(self)@ == (WindowView { pos, ..old(self)@ }),
    {
        self.pos = landed.saturating_sub(self.start);
        self.pos
    }
}

/// A window reads its member and nothing after it: what a read takes lies
/// between where the window is and the member's end.
pub proof fn a_window_reads_inside_its_member(w: WindowView, remaining: nat)
    requires
        w.pos <= w.len,
    ensures
        0 <= wanted(w, remaining as int),
        w.start + w.pos + wanted(w, remaining as int) <= w.start + w.len,
        wanted(w, remaining as int) == 0 <==> remaining == 0 || w.pos == w.len,
{
}

/// Seeks are in the member's own coordinates: an archive that lands where it
/// was sent puts the window where the seek said.
pub proof fn a_seek_lands_where_it_says(w: WindowView, to: SeekFrom)
    requires
        target(w, to) is Some,
        w.start + target(w, to)->0 <= u64::MAX,
    ensures
        saturated(saturated(w.start + target(w, to)->0) - w.start) == target(w, to)->0,
{
}

} // verus!
