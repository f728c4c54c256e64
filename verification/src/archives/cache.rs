//! A member while it is extracted: how much of it there is, who reads it,
//! and when nobody wants it any more.
//!
//! An extraction writes a file that any number of readers read while it
//! grows. What is here decides what a reader does when it has read all there
//! is, and when an extraction gives up.
use super::window::SeekFrom;
use crate::text;
use crate::text::cat2;
use vstd::prelude::*;

verus! {

/// How long, in nanoseconds, an extraction goes on writing with nobody
/// reading before it gives up. Long enough to bridge a seek, and short
/// enough that a player that has gone for good costs half a minute of
/// decoding and no more.
pub const ABANDONED_AFTER: u64 = 30_000_000_000;

/// What an extraction that gives up says.
pub const ABANDONED: &'static str = "extraction abandoned: nothing has read it for a while";

/// How many readers are open on an extraction right now. The writers watch
/// it: an extraction nobody is reading is an extraction nobody wants.
#[derive(Debug, Clone, Copy, PartialEq, Eq, Structural)]
pub struct Readers {
    open: usize,
}

impl View for Readers {
    type V = nat;

    closed spec fn view(&self) -> nat {
        self.open as nat
    }
}

impl Default for Readers {
    fn default() -> (r: Self)
        ensures
            r@ == 0,
    {
        Readers { open: 0 }
    }
}

impl Readers {
    /// Whether anybody reads.
    pub fn any(&self) -> (r: bool)
        ensures
            r == (self@ > 0),
    {
        self.open > 0
    }

    /// One more reader.
    pub fn opened(&mut self)
        requires
            old(self)@ < usize::MAX,
        ensures
            final(self)@ == old(self)@ + 1,
    {
        self.open = self.open + 1;
    }

    /// One reader less.
    pub fn closed(&mut self)
        requires
            old(self)@ > 0,
        ensures
            final(self)@ == old(self)@ - 1,
    {
        self.open = self.open - 1;
    }
}

/// The writer's side of the readers count: since when it has seen none, and
/// how long it waits for one.
#[derive(Debug, Clone, Copy, PartialEq, Eq, Structural)]
pub struct Abandonment {
    unread_since: Option<u64>,
    after: u64,
}

/// What an [`Abandonment`] is.
pub struct AbandonmentView {
    pub unread_since: Option<u64>,
    pub after: u64,
}

impl View for Abandonment {
    type V = AbandonmentView;

    closed spec fn view(&self) -> AbandonmentView {
        AbandonmentView { unread_since: self.unread_since, after: self.after }
    }
}

/// Since when nobody reads, at a look at the time `now`.
pub open spec fn unread_since(a: AbandonmentView, any: bool, now: u64) -> Option<u64> {
    if any {
        None
    } else {
        match a.unread_since {
            Some(since) => Some(since),
            None => Some(now),
        }
    }
}

/// Whether an extraction is given up: nobody has read it for as long as it
/// waits.
pub open spec fn is_abandoned(a: AbandonmentView, any: bool, now: u64) -> bool {
    match unread_since(a, any, now) {
        Some(since) => (if now >= since {
            now - since
        } else {
            0
        }) >= a.after,
        None => false,
    }
}

impl Abandonment {
    pub fn new(after: u64) -> (a: Self)
        ensures
            a@ == (AbandonmentView { unread_since: None, after }),
    {
        Abandonment { unread_since: None, after }
    }

    /// Look at the readers at the time `now`: an error once nobody has been
    /// reading for as long as the writer waits.
    pub fn check(&mut self, any: bool, now: u64) -> (r: Result<(), String>)
        ensures
            final(self)@ == (AbandonmentView {
                unread_since: unread_since(old(self)@, any, now),
                ..old(self)@
            }),
            match r {
                Ok(()) => !is_abandoned(old(self)@, any, now),
                Err(e) => is_abandoned(old(self)@, any, now) && e@ == ABANDONED@,
            },
    {
        if any {
            self.unread_since = None;
            return Ok(());
        }
        let since: u64 = match self.unread_since {
            Some(s) => s,
            None => now,
        };
        self.unread_since = Some(since);
        if now.saturating_sub(since) >= self.after {
            Err(ABANDONED.to_owned())
        } else {
            Ok(())
        }
    }
}

/// How far an extraction is.
#[derive(Debug, Clone)]
pub struct StateSnapshot {
    pub written_bytes: u64,
    pub is_complete: bool,
    pub error: Option<String>,
}

/// What a [`StateSnapshot`] says.
pub struct StateView {
    pub written_bytes: u64,
    pub is_complete: bool,
    pub error: Option<Seq<char>>,
}

impl View for StateSnapshot {
    type V = StateView;

    open spec fn view(&self) -> StateView {
        StateView {
            written_bytes: self.written_bytes,
            is_complete: self.is_complete,
            error: match self.error {
                Some(e) => Some(e@),
                None => None,
            },
        }
    }
}

/// How far an extraction that just starts is.
pub open spec fn nothing_written() -> StateView {
    StateView { written_bytes: 0, is_complete: false, error: None }
}

impl StateSnapshot {
    /// Nothing has been written.
    pub fn new() -> (s: Self)
        ensures
            s@ == nothing_written(),
    {
        StateSnapshot { written_bytes: 0, is_complete: false, error: None }
    }

    /// The file took `n` more bytes.
    pub fn wrote(&mut self, n: usize)
        requires
            old(self)@.written_bytes + n <= u64::MAX,
        ensures
            final(self)@ == (StateView {
                written_bytes: (old(self)@.written_bytes + n) as u64,
                ..old(self)@
            }),
    {
        self.written_bytes = self.written_bytes + n as u64;
    }

    /// The member is written, and the file flushed, or not. The flush comes
    /// first: by the time an extraction is complete every counted byte is
    /// there to be read.
    pub fn finish(&mut self, flushed: Result<(), String>)
        ensures
            match flushed {
                Ok(()) => final(self)@ == (StateView { is_complete: true, ..old(self)@ }),
                Err(e) => final(self)@ == (StateView {
                    is_complete: true,
                    error: Some("flush on finish failed: "@ + e@),
                    ..old(self)@
                }),
            },
    {
        match flushed {
            Ok(()) => {
                self.is_complete = true;
            },
            Err(e) => {
                self.error = Some(cat2("flush on finish failed: ", e.as_str()));
                self.is_complete = true;
            },
        }
    }

    /// The extraction failed.
    pub fn set_error(&mut self, err: String)
        ensures
            final(self)@ == (StateView { is_complete: true, error: Some(err@), ..old(self)@ }),
    {
        self.error = Some(err);
        self.is_complete = true;
    }

    /// Whether the extraction ended in an error, so a reader taken now would
    /// only be told so.
    pub fn is_failed(&self) -> (r: bool)
        ensures
            r == (self@.error is Some),
    {
        self.error.is_some()
    }

    /// Look at the readers before a write: an extraction that is given up is
    /// failed with it.
    pub fn check_abandoned(&mut self, abandonment: &mut Abandonment, any: bool, now: u64) -> (r:
        Result<(), String>)
        ensures
            final(abandonment)@ == (AbandonmentView {
                unread_since: unread_since(old(abandonment)@, any, now),
                ..old(abandonment)@
            }),
            r is Err <==> is_abandoned(old(abandonment)@, any, now),
            r matches Err(e) ==> e@ == ABANDONED@,
            final(self)@ == (if is_abandoned(old(abandonment)@, any, now) {
                StateView { is_complete: true, error: Some(ABANDONED@), ..old(self)@ }
            } else {
                old(self)@
            }),
    {
        match abandonment.check(any, now) {
            Ok(()) => Ok(()),
            Err(e) => {
                self.set_error(e.clone());
                Err(e)
            },
        }
    }
}

// ---------------------------------------------------------------------
// Reading

/// What a reader does next.
#[derive(Debug)]
pub enum ReadStep {
    /// Fail: the extraction did.
    Fail(String),
    /// Read up to this many bytes from the file.
    ReadFile(usize),
    /// Answer with what has been read: nothing is the end of the member.
    Ready,
    /// Look again.
    Retry,
    /// Wait for the writer.
    Park,
}

/// What a seek from the end of a member of unknown length says.
pub const UNKNOWN_LENGTH: &'static str = "SeekFrom::End requires known total size";

/// A reader over a member that may still be written.
#[derive(Debug, Clone, Copy, PartialEq, Eq, Structural)]
pub struct ProgressiveReader {
    pos: u64,
    total_size: Option<u64>,
}

/// What a [`ProgressiveReader`] is.
pub struct ReaderView {
    pub pos: u64,
    pub total_size: Option<u64>,
}

impl View for ProgressiveReader {
    type V = ReaderView;

    closed spec fn view(&self) -> ReaderView {
        ReaderView { pos: self.pos, total_size: self.total_size }
    }
}

/// How many bytes a reader that has read `pos` may read of what is written.
pub open spec fn readable(pos: u64, written: u64, remaining: int) -> int {
    if remaining <= written - pos {
        remaining
    } else {
        written - pos
    }
}

/// What a [`ReadStep`] says.
pub enum StepView {
    Fail(Seq<char>),
    ReadFile(int),
    Ready,
    Retry,
    Park,
}

impl View for ReadStep {
    type V = StepView;

    open spec fn view(&self) -> StepView {
        match self {
            ReadStep::Fail(e) => StepView::Fail(e@),
            ReadStep::ReadFile(n) => StepView::ReadFile(*n as int),
            ReadStep::Ready => StepView::Ready,
            ReadStep::Retry => StepView::Retry,
            ReadStep::Park => StepView::Park,
        }
    }
}

/// What a reader does next: it fails if the extraction did, reads what is
/// written, and where there is nothing to read it ends with a complete
/// member, and otherwise waits, unless the writer has just called.
pub open spec fn step(r: ReaderView, s: StateView, remaining: int, called: bool) -> StepView {
    match s.error {
        Some(e) => StepView::Fail(e),
        None => if r.pos < s.written_bytes {
            if remaining == 0 {
                StepView::Ready
            } else {
                StepView::ReadFile(readable(r.pos, s.written_bytes, remaining))
            }
        } else if s.is_complete {
            StepView::Ready
        } else if called {
            StepView::Retry
        } else {
            StepView::Park
        },
    }
}

/// What a reader does after a read of counted bytes.
pub open spec fn step_after(s: StateView, got: int, called: bool) -> StepView {
    if got > 0 {
        StepView::Ready
    } else if s.is_complete || called {
        StepView::Retry
    } else {
        StepView::Park
    }
}

impl ProgressiveReader {
    /// A reader from the start of a member.
    pub fn new(total_size: Option<u64>) -> (r: Self)
        ensures
            r@ == (ReaderView { pos: 0, total_size }),
    {
        ProgressiveReader { pos: 0, total_size }
    }

    /// What to do next for somebody who takes up to `remaining` bytes.
    /// `called` is whether the writer has called since this reader last
    /// looked.
    pub fn poll_read(&self, state: &StateSnapshot, remaining: usize, called: bool) -> (r: ReadStep)
        ensures
            r@ == step(self@, state@, remaining as int, called),
    {
        match &state.error {
            Some(e) => {
                return ReadStep::Fail(e.clone());
            },
            None => {},
        }
        if self.pos < state.written_bytes {
            if remaining == 0 {
                return ReadStep::Ready;
            }
            let available: u64 = state.written_bytes - self.pos;
            let needed: usize = if remaining as u64 <= available {
                remaining
            } else {
                available as usize
            };
            return ReadStep::ReadFile(needed);
        }
        if state.is_complete {
            ReadStep::Ready
        } else if called {
            ReadStep::Retry
        } else {
            ReadStep::Park
        }
    }

    /// Take in what the file gave of a read of what was written when `state`
    /// was. A read that gave nothing of bytes that were counted describes a
    /// file that no longer exists: once the writer is complete every counted
    /// byte is there, so the read is tried again; while it is not, there is
    /// always another call coming.
    pub fn after_read(&mut self, state: &StateSnapshot, got: usize, called: bool) -> (r: ReadStep)
        requires
            old(self)@.pos + got <= state@.written_bytes,
        ensures
            final(self)@ == (ReaderView { pos: (old(self)@.pos + got) as u64, ..old(self)@ }),
            r@ == step_after(state@, got as int, called),
    {
        self.pos = self.pos + got as u64;
        if got > 0 {
            ReadStep::Ready
        } else if state.is_complete || called {
            ReadStep::Retry
        } else {
            ReadStep::Park
        }
    }

    /// Where to seek in the file.
    pub fn start_seek(&self, to: SeekFrom) -> (r: Result<u64, String>)
        requires
            to matches SeekFrom::End(n) ==> (self@.total_size matches Some(total) ==> total + n
                <= u64::MAX),
            to matches SeekFrom::Current(n) ==> self@.pos <= i64::MAX && self@.pos + n <= i64::MAX,
        ensures
            match to {
                SeekFrom::Start(n) => r matches Ok(at) && at == n,
                SeekFrom::End(n) => match self@.total_size {
                    Some(total) => r matches Ok(at) && at == (if total + n < 0 {
                        0
                    } else {
                        total + n
                    }),
                    None => r matches Err(e) && e@ == UNKNOWN_LENGTH@,
                },
                SeekFrom::Current(n) => if self@.pos + n < 0 {
                    r matches Err(e) && e@ == super::window::NEGATIVE_SEEK@
                } else {
                    r matches Ok(at) && at == self@.pos + n
                },
            },
    {
        match to {
            SeekFrom::Start(n) => Ok(n),
            SeekFrom::End(n) => match self.total_size {
                Some(total) => {
                    if n < 0 {
                        let back: u64 = (-(n as i128)) as u64;
                        Ok(total.saturating_sub(back))
                    } else {
                        Ok(total + n as u64)
                    }
                },
                None => Err(UNKNOWN_LENGTH.to_owned()),
            },
            SeekFrom::Current(n) => {
                let there: i64 = self.pos as i64 + n;
                if there < 0 {
                    Err(super::window::NEGATIVE_SEEK.to_owned())
                } else {
                    Ok(there as u64)
                }
            },
        }
    }

    /// The file is positioned here.
    pub fn poll_complete(&mut self, landed: u64)
        ensures
            final(self)@ == (ReaderView { pos: landed, ..old(self)@ }),
    {
        self.pos = landed;
    }
}

// ---------------------------------------------------------------------
// Laws

/// A seek that bridges nothing loses nothing: a reader that is there when
/// the writer looks resets its patience, however long nobody read before.
pub proof fn a_reader_keeps_the_writer_going(a: AbandonmentView, now: u64, later: u64)
    requires
        a.after > 0,
    ensures
        !is_abandoned(a, true, now),
        ({
            let b = AbandonmentView { unread_since: unread_since(a, true, now), ..a };
            !is_abandoned(b, false, later)
        }),
{
}

/// An extraction nobody reads gives up: one that finds nobody twice, as far
/// apart as it waits, is abandoned at the second look.
pub proof fn an_unread_extraction_gives_up(a: AbandonmentView, first: u64, second: u64)
    requires
        a.unread_since is None,
        first + a.after <= second,
    ensures
        ({
            let b = AbandonmentView { unread_since: unread_since(a, false, first), ..a };
            is_abandoned(b, false, second)
        }),
{
}

/// A member is never cut short: it ends for a reader who takes bytes only
/// once that reader has every byte that was written, and the writer is done.
pub proof fn a_member_is_never_cut_short(
    r: ReaderView,
    s: StateView,
    remaining: nat,
    called: bool,
)
    requires
        remaining > 0,
        step(r, s, remaining as int, called) is Ready,
    ensures
        r.pos >= s.written_bytes,
        s.is_complete,
{
}

/// No reader waits for a writer that has said its last word: neither before
/// a read nor after one that gave nothing.
pub proof fn no_reader_waits_for_a_finished_writer(
    r: ReaderView,
    s: StateView,
    remaining: nat,
    got: nat,
    called: bool,
)
    requires
        s.is_complete,
    ensures
        !(step(r, s, remaining as int, called) is Park),
        !(step_after(s, got as int, called) is Park),
{
}

/// What is written is read in order and once: a reader that has handed out
/// the file's first bytes up to where it is, and hands out what a read there
/// gave, has handed out the file's first bytes up to where it is then.
pub proof fn reads_follow_one_another(file: Seq<u8>, handed: Seq<u8>, r: ReaderView, got: nat)
    requires
        r.pos + got <= file.len(),
        r.pos + got <= u64::MAX,
        handed == file.take(r.pos as int),
    ensures
        ({
            let after = ReaderView { pos: (r.pos + got) as u64, ..r };
            handed + file.subrange(r.pos as int, r.pos + got) == file.take(after.pos as int)
        }),
{
    assert(handed + file.subrange(r.pos as int, r.pos + got) =~= file.take(r.pos + got));
}

} // verus!
