//! What the log files are called, which of them are kept, and what may stand
//! in them.
use crate::numbers;
use crate::order;
use crate::order::sorted;
use crate::text;
use crate::text::{cat2, cat3, cat5, decimal, ends_with, same, starts_with};
use vstd::prelude::*;

verus! {

/// The human-readable log of the running launch. The one before it is
/// renamed to `server_<when it last wrote>.log` as this one opens.
pub const CURRENT_LOG: &'static str = "server_current.log";

/// How many launches' logs a start leaves on disk, per kind (text and
/// JSON), this launch's included. Nothing else deletes them.
pub const KEPT_LAUNCHES: usize = 10;

/// How often, in seconds, the process's memory is looked at.
pub const MEMORY_SNAPSHOT_INTERVAL: u64 = 60;

/// How many bytes a process grows by before that is worth a line.
pub const MEMORY_GROWTH_ALERT_BYTES: u64 = 134_217_728;

/// Nanoseconds in a second.
pub const NANOS_PER_SEC: u64 = 1_000_000_000;

// ---------------------------------------------------------------------
// The process

/// What a process keeps of itself for its diagnostics.
#[derive(Debug, Clone, Copy, PartialEq, Eq, Structural)]
pub struct ProcessState {
    /// When the process started, in nanoseconds of a clock that only goes
    /// forward.
    pub start: Option<u64>,
    /// How many streams are being served straight from a file.
    pub direct_streams: u64,
    /// Whether the log files of the process are open.
    pub log_files: bool,
}

impl Default for ProcessState {
    fn default() -> (p: Self)
        ensures
            p == (ProcessState { start: None, direct_streams: 0, log_files: false }),
    {
        ProcessState { start: None, direct_streams: 0, log_files: false }
    }
}

/// When a process started: the first time it said so.
pub open spec fn start_of(p: ProcessState, now: u64) -> u64 {
    match p.start {
        Some(start) => start,
        None => now,
    }
}

/// Note that the process starts now. Only the first call does anything.
pub fn init_process_start(process: &mut ProcessState, now: u64)
    ensures
        *final(process) == (ProcessState {
            start: Some(start_of(*old(process), now)),
            ..*old(process)
        }),
{
    if process.start.is_none() {
        process.start = Some(now);
    }
}

/// How many whole seconds the process has run. A process that never said
/// when it started starts now.
pub fn uptime_secs(process: &mut ProcessState, now: u64) -> (secs: u64)
    ensures
        *final(process) == (ProcessState {
            start: Some(start_of(*old(process), now)),
            ..*old(process)
        }),
        secs == (if now >= start_of(*old(process), now) {
            (now - start_of(*old(process), now)) / NANOS_PER_SEC as int
        } else {
            0
        }),
{
    init_process_start(process, now);
    match process.start {
        Some(start) => now.saturating_sub(start) / NANOS_PER_SEC,
        None => 0,
    }
}

/// How many streams are being served straight from a file.
pub fn active_direct_streams(process: &ProcessState) -> (n: u64)
    ensures
        n == process.direct_streams,
{
    process.direct_streams
}

/// Count one more stream. The count wraps past its largest value.
pub fn direct_stream_started(process: &mut ProcessState)
    ensures
        *final(process) == (ProcessState {
            direct_streams: if old(process).direct_streams == u64::MAX {
                0
            } else {
                (old(process).direct_streams + 1) as u64
            },
            ..*old(process)
        }),
{
    process.direct_streams = process.direct_streams.wrapping_add(1);
}

/// Count one stream less, and never below none.
pub fn direct_stream_ended(process: &mut ProcessState)
    ensures
        *final(process) == (ProcessState {
            direct_streams: if old(process).direct_streams == 0 {
                0
            } else {
                (old(process).direct_streams - 1) as u64
            },
            ..*old(process)
        }),
{
    process.direct_streams = process.direct_streams.saturating_sub(1);
}

/// Note that the log files of the process are open.
pub fn store_log_guards(process: &mut ProcessState)
    ensures
        *final(process) == (ProcessState { log_files: true, ..*old(process) }),
{
    process.log_files = true;
}

/// Whether this process has already installed its log files. Once it has,
/// they are the process's for good: a second start must not open them again.
pub fn log_files_installed(process: &ProcessState) -> (r: bool)
    ensures
        r == process.log_files,
{
    process.log_files
}

// ---------------------------------------------------------------------
// Which logs go

/// Whether a name is that of an earlier launch's log of a kind.
pub open spec fn is_launch(name: Seq<char>, suffix: Seq<char>) -> bool {
    &&& text::has_prefix(name, "server_"@)
    &&& text::has_suffix(name, suffix)
    &&& name != CURRENT_LOG@
}

/// The earlier launches' logs of a kind, as they are listed.
pub open spec fn launches(names: Seq<Seq<char>>, suffix: Seq<char>) -> Seq<Seq<char>>
    decreases names.len(),
{
    if names.len() == 0 {
        names
    } else {
        let before = launches(names.drop_last(), suffix);
        if is_launch(names.last(), suffix) {
            before.push(names.last())
        } else {
            before
        }
    }
}

/// How many of `n` logs go when `keep` stay.
pub open spec fn excess(n: int, keep: int) -> int {
    if n > keep {
        n - keep
    } else {
        0
    }
}

/// The logs of a kind that go: all but the last `keep` by name.
pub open spec fn pruned(names: Seq<Seq<char>>, suffix: Seq<char>, keep: int) -> Seq<Seq<char>> {
    let all = order::ordered(launches(names, suffix));
    all.take(excess(all.len() as int, keep))
}

/// The logs of a kind that stay.
pub open spec fn kept(names: Seq<Seq<char>>, suffix: Seq<char>, keep: int) -> Seq<Seq<char>> {
    let all = order::ordered(launches(names, suffix));
    all.skip(excess(all.len() as int, keep))
}

/// Of the files in the log directory, those a start deletes: all but the
/// newest `keep` files named `server_*<suffix>`, newest by name, because
/// every such name carries a time that sorts as the time does.
/// `server_current.log` is never one of them.
pub fn launches_to_delete(names: &Vec<String>, suffix: &str, keep: usize) -> (r: Vec<String>)
    ensures
        text::texts(r@) == pruned(text::texts(names@), suffix@, keep as int),
{
    let ghost all = text::texts(names@);
    let mut found: Vec<String> = Vec::new();
    let mut i: usize = 0;
    proof {
        assert(text::texts(found@) =~= launches(all.take(0), suffix@));
    }
    while i < names.len()
        invariant
            i <= names@.len(),
            all == text::texts(names@),
            text::texts(found@) == launches(all.take(i as int), suffix@),
        decreases names@.len() - i,
    {
        proof {
            assert(all.take(i + 1).drop_last() =~= all.take(i as int));
            assert(all.take(i + 1).last() == names@[i as int]@);
        }
        let name = names[i].as_str();
        if starts_with(name, "server_") && ends_with(name, suffix) && !same(name, CURRENT_LOG) {
            let ghost before = text::texts(found@);
            found.push(names[i].clone());
            proof {
                assert(text::texts(found@) =~= before.push(name@));
            }
        }
        i += 1;
    }
    proof {
        assert(all.take(all.len() as int) =~= all);
    }
    let mut launches = sorted(found);
    proof {
        assert(text::texts(launches@).len() == launches@.len());
    }
    let n: usize = launches.len();
    let goes: usize = n.saturating_sub(keep);
    let ghost whole = launches@;
    launches.truncate(goes);
    proof {
        assert(text::texts(launches@) =~= text::texts(whole).take(goes as int));
    }
    launches
}

/// A start keeps the newest launches: as many as it may, and none that goes
/// is newer than one that stays.
pub proof fn the_newest_launches_are_kept(
    names: Seq<Seq<char>>,
    suffix: Seq<char>,
    keep: nat,
    i: int,
    j: int,
)
    requires
        0 <= i < pruned(names, suffix, keep as int).len(),
        0 <= j < kept(names, suffix, keep as int).len(),
    ensures
        order::at_most(
            pruned(names, suffix, keep as int)[i],
            kept(names, suffix, keep as int)[j],
        ),
        kept(names, suffix, keep as int).len() == keep,
{
    let all = order::ordered(launches(names, suffix));
    order::lemma_ordered(launches(names, suffix));
    let n = excess(all.len() as int, keep as int);
    assert(pruned(names, suffix, keep as int)[i] == all[i]);
    assert(kept(names, suffix, keep as int)[j] == all[n + j]);
}

/// A start never deletes more than it has to: with no more launches than may
/// stay, none goes.
pub proof fn few_launches_all_stay(names: Seq<Seq<char>>, suffix: Seq<char>, keep: nat)
    requires
        launches(names, suffix).len() <= keep,
    ensures
        pruned(names, suffix, keep as int) == Seq::<Seq<char>>::empty(),
{
    order::lemma_ordered(launches(names, suffix));
    assert(pruned(names, suffix, keep as int) =~= Seq::<Seq<char>>::empty());
}

/// The running launch's log is never deleted.
pub proof fn the_current_log_is_never_deleted(
    names: Seq<Seq<char>>,
    suffix: Seq<char>,
    keep: nat,
)
    ensures
        !pruned(names, suffix, keep as int).contains(CURRENT_LOG@),
{
    broadcast use vstd::seq_lib::group_to_multiset_ensures;

    let some = launches(names, suffix);
    let all = order::ordered(some);
    order::lemma_ordered(some);
    lemma_launches(names, suffix);
    if pruned(names, suffix, keep as int).contains(CURRENT_LOG@) {
        let k = choose|k: int|
            0 <= k < pruned(names, suffix, keep as int).len() && pruned(
                names,
                suffix,
                keep as int,
            )[k] == CURRENT_LOG@;
        assert(all[k] == CURRENT_LOG@);
        assert(all.contains(CURRENT_LOG@));
        assert(all.to_multiset().count(CURRENT_LOG@) > 0);
        assert(some.contains(CURRENT_LOG@));
    }
}

proof fn lemma_launches(names: Seq<Seq<char>>, suffix: Seq<char>)
    ensures
        forall|i: int|
            0 <= i < launches(names, suffix).len() ==> is_launch(
                #[trigger] launches(names, suffix)[i],
                suffix,
            ),
    decreases names.len(),
{
    if names.len() > 0 {
        let before = launches(names.drop_last(), suffix);
        lemma_launches(names.drop_last(), suffix);
        assert forall|i: int| 0 <= i < launches(names, suffix).len() implies is_launch(
            #[trigger] launches(names, suffix)[i],
            suffix,
        ) by {
            if i < before.len() {
                assert(launches(names, suffix)[i] == before[i]);
            }
        }
    }
}

// ---------------------------------------------------------------------
// What the previous log becomes

/// What an earlier launch's log is called: after when it last wrote, and
/// numbered where that name is taken.
pub open spec fn archive_name(stamp: Seq<char>, n: nat) -> Seq<char> {
    if n == 0 {
        "server_"@ + stamp + ".log"@
    } else {
        "server_"@ + stamp + "-"@ + text::dec(n) + ".log"@
    }
}

/// The number of the first name that is not taken, from `n` on.
pub open spec fn free_from(stamp: Seq<char>, taken: Seq<Seq<char>>, n: nat, tries: nat) -> nat
    decreases tries,
{
    if tries == 0 || !taken.contains(archive_name(stamp, n)) {
        n
    } else {
        free_from(stamp, taken, n + 1, (tries - 1) as nat)
    }
}

/// What the previous launch's log is renamed to: the first of its names that
/// no file in the directory has.
pub open spec fn archive_spec(stamp: Seq<char>, taken: Seq<Seq<char>>) -> Seq<char> {
    archive_name(stamp, free_from(stamp, taken, 0, taken.len()))
}

fn is_taken(taken: &Vec<String>, name: &str) -> (r: bool)
    ensures
        r == text::texts(taken@).contains(name@),
{
    let mut i: usize = 0;
    while i < taken.len()
        invariant
            i <= taken@.len(),
            forall|j: int| 0 <= j < i ==> (#[trigger] taken@[j])@ != name@,
        decreases taken@.len() - i,
    {
        if same(taken[i].as_str(), name) {
            proof {
                assert(text::texts(taken@)[i as int] == name@);
            }
            return true;
        }
        i += 1;
    }
    proof {
        assert forall|j: int| 0 <= j < text::texts(taken@).len() implies text::texts(taken@)[j]
            != name@ by {
            assert(text::texts(taken@)[j] == taken@[j]@);
        }
    }
    false
}

fn name_of_archive(stamp: &str, n: usize) -> (s: String)
    ensures
        s@ == archive_name(stamp@, n as nat),
{
    if n == 0 {
        cat3("server_", stamp, ".log")
    } else {
        cat5("server_", stamp, "-", decimal(n as u64).as_str(), ".log")
    }
}

/// What the previous launch's log is renamed to, given when it last wrote
/// and the names of the files in the directory.
pub fn archive_for(stamp: &str, taken: &Vec<String>) -> (name: String)
    ensures
        name@ == archive_spec(stamp@, text::texts(taken@)),
{
    let ghost names = text::texts(taken@);
    let mut n: usize = 0;
    while n < taken.len()
        invariant
            n <= taken@.len(),
            names == text::texts(taken@),
            free_from(stamp@, names, 0, names.len()) == free_from(
                stamp@,
                names,
                n as nat,
                (names.len() - n) as nat,
            ),
        decreases taken@.len() - n,
    {
        let name = name_of_archive(stamp, n);
        if !is_taken(taken, name.as_str()) {
            return name;
        }
        n += 1;
    }
    name_of_archive(stamp, n)
}

/// Two numbers give two names.
proof fn lemma_names_differ(stamp: Seq<char>, a: nat, b: nat)
    requires
        a < b,
    ensures
        archive_name(stamp, a) != archive_name(stamp, b),
{
    numbers::a_number_written_is_read_back(a);
    numbers::a_number_written_is_read_back(b);
    let x = archive_name(stamp, a);
    let y = archive_name(stamp, b);
    let n = ("server_"@ + stamp).len() as int;
    let tail = ".log"@.len() as int;
    reveal_strlit(".log");
    reveal_strlit("-");
    if x == y {
        if a == 0 {
            assert(x[n] == '.');
            assert(y[n] == '-');
        } else {
            assert(x.subrange(n + 1, x.len() - tail) =~= text::dec(a));
            assert(y.subrange(n + 1, y.len() - tail) =~= text::dec(b));
        }
    }
}

/// The names with the numbers below `n`.
spec fn first_names(stamp: Seq<char>, n: nat) -> Seq<Seq<char>> {
    Seq::new(n, |i: int| archive_name(stamp, i as nat))
}

proof fn lemma_free_from(stamp: Seq<char>, taken: Seq<Seq<char>>, n: nat, tries: nat)
    ensures
        ({
            let f = free_from(stamp, taken, n, tries);
            &&& n <= f <= n + tries
            &&& forall|i: nat| n <= i < f ==> taken.contains(#[trigger] archive_name(stamp, i))
            &&& f < n + tries ==> !taken.contains(archive_name(stamp, f))
        }),
    decreases tries,
{
    if tries > 0 && taken.contains(archive_name(stamp, n)) {
        lemma_free_from(stamp, taken, n + 1, (tries - 1) as nat);
    }
}

/// An archive never replaces another: the name a log is renamed to is that
/// of no file in the directory.
pub proof fn an_archive_replaces_nothing(stamp: Seq<char>, taken: Seq<Seq<char>>)
    ensures
        !taken.contains(archive_spec(stamp, taken)),
{
    lemma_free_from(stamp, taken, 0, taken.len());
    let f = free_from(stamp, taken, 0, taken.len());
    if f == taken.len() && taken.contains(archive_name(stamp, f)) {
        // One more name than there are files cannot all be taken.
        let names = first_names(stamp, f + 1);
        assert(names.no_duplicates()) by {
            assert forall|i: int, j: int|
                0 <= i < names.len() && 0 <= j < names.len() && i != j implies names[i]
                != names[j] by {
                if i < j {
                    lemma_names_differ(stamp, i as nat, j as nat);
                } else {
                    lemma_names_differ(stamp, j as nat, i as nat);
                }
            }
        }
        names.unique_seq_to_set();
        assert(names.to_set().subset_of(taken.to_set())) by {
            assert forall|x: Seq<char>| names.to_set().contains(x) implies taken.to_set().contains(
                x,
            ) by {
                let i = choose|i: int| 0 <= i < names.len() && names[i] == x;
                assert(taken.contains(archive_name(stamp, i as nat)));
            }
        }
        taken.lemma_cardinality_of_set();
        vstd::set_lib::lemma_len_subset(names.to_set(), taken.to_set());
    }
}

// ---------------------------------------------------------------------
// What may stand in a log

/// What stands in for a secret in the log.
pub const REDACTED: &'static str = "<redacted>";

/// Whether an argument is the value of the `--token` before it.
pub open spec fn is_secret(args: Seq<Seq<char>>, i: int) -> bool
    decreases i,
{
    0 < i && args[i - 1] == "--token"@ && !is_secret(args, i - 1)
}

/// An argument as the log may show it.
pub open spec fn shown(args: Seq<Seq<char>>, i: int) -> Seq<char> {
    if is_secret(args, i) {
        REDACTED@
    } else if holds_token(args[i]) {
        "--token="@ + REDACTED@
    } else {
        args[i]
    }
}

/// The command line as the log may show it: the value of `--token`, in
/// either spelling (`--token <t>`, `--token=<t>`), replaced by [`REDACTED`].
/// Redaction is by flag name, never by what the value looks like.
pub fn redacted_args(args: Vec<String>) -> (r: Vec<String>)
    ensures
        text::texts(r@) == Seq::new(args@.len(), |i: int| shown(text::texts(args@), i)),
{
    let ghost given = text::texts(args@);
    let mut redacted: Vec<String> = Vec::new();
    let mut value_is_secret = false;
    let mut i: usize = 0;
    while i < args.len()
        invariant
            i <= args@.len(),
            given == text::texts(args@),
            value_is_secret == is_secret(given, i as int),
            redacted@.len() == i,
            forall|j: int| 0 <= j < i ==> (#[trigger] redacted@[j])@ == shown(given, j),
        decreases args@.len() - i,
    {
        proof {
            assert(given[i as int] == args@[i as int]@);
        }
        if value_is_secret {
            redacted.push(REDACTED.to_owned());
            value_is_secret = false;
        } else if same(args[i].as_str(), "--token") {
            value_is_secret = true;
            redacted.push(args[i].clone());
        } else if starts_with(args[i].as_str(), "--token=") {
            redacted.push(cat2("--token=", REDACTED));
        } else {
            redacted.push(args[i].clone());
        }
        i += 1;
    }
    proof {
        assert(text::texts(redacted@) =~= Seq::new(args@.len(), |i: int| shown(given, i)));
    }
    redacted
}

/// Whether an argument is a `--token=` with a value.
pub open spec fn holds_token(arg: Seq<char>) -> bool {
    arg != "--token"@ && text::has_prefix(arg, "--token="@)
}

/// The token never passes: two command lines that differ only in the value
/// of `--token`, in either spelling, are shown the same.
pub proof fn the_token_is_never_shown(args: Seq<Seq<char>>, other: Seq<Seq<char>>, i: int)
    requires
        args.len() == other.len(),
        0 <= i < args.len(),
        forall|j: int|
            0 <= j < args.len() ==> is_secret(args, j) || (holds_token(args[j]) && holds_token(
                other[j],
            )) || #[trigger] args[j] == other[j],
    ensures
        shown(args, i) == shown(other, i),
{
    lemma_same_secrets(args, other, i);
}

proof fn lemma_same_secrets(args: Seq<Seq<char>>, other: Seq<Seq<char>>, i: int)
    requires
        args.len() == other.len(),
        0 <= i < args.len(),
        forall|j: int|
            0 <= j < args.len() ==> is_secret(args, j) || (holds_token(args[j]) && holds_token(
                other[j],
            )) || #[trigger] args[j] == other[j],
    ensures
        is_secret(args, i) == is_secret(other, i),
    decreases i,
{
    if i > 0 {
        lemma_same_secrets(args, other, i - 1);
        assert(is_secret(args, i - 1) || (holds_token(args[i - 1]) && holds_token(other[i - 1]))
            || args[i - 1] == other[i - 1]);
    }
}

/// One header of a request, as it is logged: its name in lower case, its
/// value where that is printable text, and how many bytes the value has.
#[derive(Debug, Clone)]
pub struct LoggedHeader {
    pub name: String,
    pub value: Option<String>,
    pub len: usize,
}

/// What a [`LoggedHeader`] says.
pub struct HeaderView {
    pub name: Seq<char>,
    pub value: Option<Seq<char>>,
    pub len: nat,
}

impl View for LoggedHeader {
    type V = HeaderView;

    open spec fn view(&self) -> HeaderView {
        HeaderView {
            name: self.name@,
            value: match self.value {
                Some(v) => Some(v@),
                None => None,
            },
            len: self.len as nat,
        }
    }
}

/// Whether a header carries credentials.
pub open spec fn is_sensitive(name: Seq<char>) -> bool {
    name == "authorization"@ || name == "proxy-authorization"@ || name == "cookie"@ || name
        == "set-cookie"@
}

/// A header as the log shows it.
pub open spec fn header_text(h: HeaderView) -> Seq<char> {
    h.name + "="@ + (if is_sensitive(h.name) {
        "<redacted:"@ + text::dec(h.len) + " bytes>"@
    } else {
        match h.value {
            Some(v) => v,
            None => "<binary:"@ + text::dec(h.len) + " bytes>"@,
        }
    })
}

/// The headers as the log shows them.
pub open spec fn headers_text(headers: Seq<HeaderView>) -> Seq<char>
    decreases headers.len(),
{
    if headers.len() == 0 {
        Seq::empty()
    } else {
        let before = headers_text(headers.drop_last());
        before + (if headers.len() > 1 {
            ", "@
        } else {
            ""@
        }) + header_text(headers.last())
    }
}

fn header_line(h: &LoggedHeader) -> (s: String)
    ensures
        s@ == header_text(h@),
{
    let name = h.name.as_str();
    let value: String = if same(name, "authorization") || same(name, "proxy-authorization") || same(
        name,
        "cookie",
    ) || same(name, "set-cookie") {
        cat3("<redacted:", decimal(h.len as u64).as_str(), " bytes>")
    } else {
        match &h.value {
            Some(v) => v.clone(),
            None => cat3("<binary:", decimal(h.len as u64).as_str(), " bytes>"),
        }
    };
    cat3(name, "=", value.as_str())
}

/// Every request header as `name=value` pairs. Credential headers are
/// redacted to their byte length so logs can be shared without leaking
/// secrets; values that are no text are shown as `<binary:N bytes>`.
pub fn format_headers(headers: &Vec<LoggedHeader>) -> (s: String)
    ensures
        s@ == headers_text(headers@.map_values(|h: LoggedHeader| h@)),
{
    let ghost all = headers@.map_values(|h: LoggedHeader| h@);
    let mut out = String::new();
    let mut i: usize = 0;
    proof {
        assert(out@ =~= headers_text(all.take(0)));
    }
    while i < headers.len()
        invariant
            i <= headers@.len(),
            all == headers@.map_values(|h: LoggedHeader| h@),
            out@ == headers_text(all.take(i as int)),
        decreases headers@.len() - i,
    {
        proof {
            assert(all.take(i + 1).drop_last() =~= all.take(i as int));
            assert(all.take(i + 1).last() == headers@[i as int]@);
        }
        let between: &str = if i > 0 {
            ", "
        } else {
            ""
        };
        let line = header_line(&headers[i]);
        out = cat3(out.as_str(), between, line.as_str());
        i += 1;
    }
    proof {
        assert(all.take(all.len() as int) =~= all);
    }
    out
}

/// The credentials a request carries never reach the log: two headers of a
/// name that carries credentials are shown the same if they are as long.
pub proof fn credentials_are_never_shown(a: HeaderView, b: HeaderView)
    requires
        a.name == b.name,
        is_sensitive(a.name),
        a.len == b.len,
    ensures
        header_text(a) == header_text(b),
{
}

/// Whether a file is a crash dump an earlier process left: its name has the
/// extension `dmp`.
pub fn is_crash_dump(name: &str) -> (r: bool)
    ensures
        r == (text::has_suffix(name@, ".dmp"@) && name@.len() > 4),
{
    if !ends_with(name, ".dmp") {
        return false;
    }
    text::chars_of(name).len() > 4
}

// ---------------------------------------------------------------------
// What is kept and what is shown

/// The launches among some files are those whose names start with `server_`
/// and end in the suffix, the log that is being written aside, in the order
/// of the files.
pub proof fn launches_are_known_by_their_names(names: Seq<Seq<char>>, suffix: Seq<char>)
    ensures
        launches(names, suffix) == names.filter_map(
            |name: Seq<char>|
                if name.len() >= 7 && name.take(7) == "server_"@ && name.len() >= suffix.len()
                    && name.skip(name.len() - suffix.len()) == suffix && name
                    != "server_current.log"@ {
                    Some(name)
                } else {
                    None
                },
        ),
    decreases names.len(),
{
    reveal_strlit("server_");
    let f = |name: Seq<char>|
        if name.len() >= 7 && name.take(7) == "server_"@ && name.len() >= suffix.len() && name.skip(
            name.len() - suffix.len(),
        ) == suffix && name != "server_current.log"@ {
            Some(name)
        } else {
            None
        };
    if names.len() == 0 {
        assert(launches(names, suffix) =~= names.filter_map(f));
    } else {
        launches_are_known_by_their_names(names.drop_last(), suffix);
        let before = names.drop_last().filter_map(f);
        assert(before.push(names.last()) =~= before + seq![names.last()]);
    }
}

/// What is pruned and what is kept are together all launches in order, each
/// once; as many are kept as are to be, or all where there are no more.
pub proof fn launches_are_pruned_or_kept(names: Seq<Seq<char>>, suffix: Seq<char>, keep: nat)
    ensures
        ({
            let all = launches(names, suffix);
            let gone = pruned(names, suffix, keep as int);
            let left = kept(names, suffix, keep as int);
            &&& (gone + left).to_multiset() == all.to_multiset()
            &&& all.len() >= keep ==> left.len() == keep
            &&& all.len() < keep ==> left.len() == all.len() && gone.len() == 0
        }),
{
    let all = launches(names, suffix);
    order::lemma_ordered(all);
    let sorted = order::ordered(all);
    let n = excess(sorted.len() as int, keep as int);
    assert(sorted.take(n) + sorted.skip(n) =~= sorted);
    vstd::seq_lib::to_multiset_len(sorted);
    vstd::seq_lib::to_multiset_len(all);
}

/// A log is put aside under the time it was started, and where that name is
/// taken, with the first number behind it that is free.
pub proof fn the_first_free_name_is_taken(stamp: Seq<char>, taken: Seq<Seq<char>>) -> (n: nat)
    ensures
        archive_spec(stamp, taken) == (if n == 0 {
            "server_"@ + stamp + ".log"@
        } else {
            "server_"@ + stamp + "-"@ + text::dec(n) + ".log"@
        }),
        n > 0 ==> taken.contains("server_"@ + stamp + ".log"@),
        forall|k: nat|
            0 < k < n ==> taken.contains(
                "server_"@ + stamp + "-"@ + #[trigger] text::dec(k) + ".log"@,
            ),
{
    let n = free_from(stamp, taken, 0, taken.len());
    lemma_taken_before(stamp, taken, 0, taken.len());
    if n > 0 {
        assert(taken.contains(archive_name(stamp, 0)));
    }
    assert forall|k: nat| 0 < k < n implies taken.contains(
        "server_"@ + stamp + "-"@ + #[trigger] text::dec(k) + ".log"@,
    ) by {
        assert(taken.contains(archive_name(stamp, k)));
    }
    n
}

proof fn lemma_taken_before(stamp: Seq<char>, taken: Seq<Seq<char>>, n: nat, tries: nat)
    ensures
        n <= free_from(stamp, taken, n, tries),
        forall|k: nat|
            n <= k < free_from(stamp, taken, n, tries) ==> taken.contains(
                #[trigger] archive_name(stamp, k),
            ),
    decreases tries,
{
    if tries > 0 && taken.contains(archive_name(stamp, n)) {
        lemma_taken_before(stamp, taken, n + 1, (tries - 1) as nat);
    }
}

/// The argument behind `--token` is not shown, nor what stands behind a `=`
/// in the same one; every other argument is shown as it is.
pub proof fn arguments_are_shown_but_for_the_token(args: Seq<Seq<char>>, i: int)
    requires
        0 <= i < args.len(),
    ensures
        i > 0 && args[i - 1] == "--token"@ && (i < 2 || args[i - 2] != "--token"@) ==> shown(args, i)
            == "<redacted>"@,
        (i == 0 || args[i - 1] != "--token"@) && args[i].len() >= 8 && args[i].take(8)
            == "--token="@ ==> shown(args, i) == "--token=<redacted>"@,
        (i == 0 || args[i - 1] != "--token"@) && (args[i].len() < 8 || args[i].take(8)
            != "--token="@) ==> shown(args, i) == args[i],
{
    reveal_strlit("--token=");
    reveal_strlit("--token");
    reveal_strlit("<redacted>");
    reveal_strlit("--token=<redacted>");
    assert("--token="@ + "<redacted>"@ =~= "--token=<redacted>"@);
    reveal_with_fuel(is_secret, 3);
}

/// Headers that carry credentials are shown by their length alone, others by
/// what they say, or by their length where that is no text.
pub proof fn headers_are_shown_but_for_credentials(h: HeaderView)
    ensures
        ({
            let secret = h.name == "authorization"@ || h.name == "proxy-authorization"@ || h.name
                == "cookie"@ || h.name == "set-cookie"@;
            &&& secret ==> header_text(h) == h.name + "="@ + ("<redacted:"@ + text::dec(h.len)
                + " bytes>"@)
            &&& !secret && h.value is Some ==> header_text(h) == h.name + "="@ + h.value->0
            &&& !secret && h.value is None ==> header_text(h) == h.name + "="@ + ("<binary:"@
                + text::dec(h.len) + " bytes>"@)
        }),
{
}

/// Headers are shown one behind the other, with a comma and a space between
/// each two.
pub proof fn headers_are_shown_in_their_order(headers: Seq<HeaderView>)
    ensures
        headers_text(headers) == text::join_spec(
            headers.map_values(|h: HeaderView| header_text(h)),
            seq![',', ' '],
        ),
    decreases headers.len(),
{
    reveal_strlit(", ");
    reveal_strlit("");
    assert(", "@ =~= seq![',', ' ']);
    let f = |h: HeaderView| header_text(h);
    let texts = headers.map_values(f);
    if headers.len() == 0 {
        assert(headers_text(headers) =~= text::join_spec(texts, seq![',', ' ']));
    } else {
        let front = headers.drop_last();
        headers_are_shown_in_their_order(front);
        assert(texts.drop_last() =~= front.map_values(f));
        if headers.len() == 1 {
            assert(headers_text(front) =~= Seq::empty());
            assert(headers_text(headers) =~= header_text(headers[0]));
        } else {
            assert(headers_text(headers) =~= text::join_spec(texts, seq![',', ' ']));
        }
    }
}

} // verus!
