//! What finding and reading members of archives promises.
use super::cache;
use super::nzb::nntp;
use super::nzb::nntp::AuthState;
use super::nzb::session;
use super::nzb::NzbFile;
use super::rar;
use super::rar::RarMemberView;
use super::sevenz;
use super::sevenz::SevenZEntryView;
use super::tar;
use super::tar::TarMemberView;
use super::window;
use super::window::{SeekFrom, WindowView};
use super::zip;
use super::zip::MemberView;
use super::{OpenedMember, ReaderView};
use crate::text;
use vstd::prelude::*;

verus! {

// ---------------------------------------------------------------------
// Formats

proof fn lemma_ends(base: Seq<char>, suffix: Seq<char>, other: Seq<char>, i: int)
    requires
        0 < i <= suffix.len(),
        i <= other.len(),
        suffix[suffix.len() - i] != other[other.len() - i],
    ensures
        !text::has_suffix(base + suffix, other),
{
    let s = base + suffix;
    if text::has_suffix(s, other) {
        let tail = s.skip(s.len() - other.len());
        assert(tail[other.len() - i] == s[s.len() - i]);
        assert(s[s.len() - i] == suffix[suffix.len() - i]);
    }
}

proof fn lemma_ends_itself(base: Seq<char>, suffix: Seq<char>)
    ensures
        text::has_suffix(base + suffix, suffix),
{
    let s = base + suffix;
    assert(s.skip(s.len() - suffix.len()) =~= suffix);
}

/// A name that ends in the suffix of an archive format is known by it,
/// whatever stands before.
pub proof fn a_name_is_known_by_its_end(base: Seq<char>)
    ensures
        super::suffix_spec(base + ".tar.gz"@) == Some(".tar.gz"@),
        super::suffix_spec(base + ".tgz"@) == Some(".tgz"@),
        super::suffix_spec(base + ".zip"@) == Some(".zip"@),
        super::suffix_spec(base + ".rar"@) == Some(".rar"@),
        super::suffix_spec(base + ".7z"@) == Some(".7z"@),
        super::suffix_spec(base + ".tar"@) == Some(".tar"@),
        super::suffix_spec(base + ".nzb"@) == Some(".nzb"@),
{
    reveal_strlit(".tar.gz");
    reveal_strlit(".tgz");
    reveal_strlit(".zip");
    reveal_strlit(".rar");
    reveal_strlit(".7z");
    reveal_strlit(".tar");
    reveal_strlit(".nzb");
    let gz = ".tar.gz"@;
    let tgz = ".tgz"@;
    let zip = ".zip"@;
    let rar = ".rar"@;
    let sevenz = ".7z"@;
    let tar = ".tar"@;
    let nzb = ".nzb"@;
    lemma_ends_itself(base, gz);
    lemma_ends_itself(base, tgz);
    lemma_ends_itself(base, zip);
    lemma_ends_itself(base, rar);
    lemma_ends_itself(base, sevenz);
    lemma_ends_itself(base, tar);
    lemma_ends_itself(base, nzb);
    lemma_ends(base, tgz, gz, 3);
    lemma_ends(base, zip, gz, 1);
    lemma_ends(base, zip, tgz, 1);
    lemma_ends(base, rar, gz, 1);
    lemma_ends(base, rar, tgz, 1);
    lemma_ends(base, rar, zip, 1);
    lemma_ends(base, sevenz, gz, 2);
    lemma_ends(base, sevenz, tgz, 2);
    lemma_ends(base, sevenz, zip, 1);
    lemma_ends(base, sevenz, rar, 1);
    lemma_ends(base, tar, gz, 1);
    lemma_ends(base, tar, tgz, 1);
    lemma_ends(base, tar, zip, 1);
    lemma_ends(base, tar, rar, 3);
    lemma_ends(base, tar, sevenz, 1);
    lemma_ends(base, nzb, gz, 1);
    lemma_ends(base, nzb, tgz, 1);
    lemma_ends(base, nzb, zip, 1);
    lemma_ends(base, nzb, rar, 1);
    lemma_ends(base, nzb, sevenz, 1);
    lemma_ends(base, nzb, tar, 1);
}

/// A suffix that is found is what the name ends in, and one of those there
/// are; where none is found, the name ends in none of them.
pub proof fn a_suffix_found_is_there(name: Seq<char>)
    ensures
        match super::suffix_spec(name) {
            Some(s) => {
                &&& s == ".tar.gz"@ || s == ".tgz"@ || s == ".zip"@ || s == ".rar"@ || s == ".7z"@
                    || s == ".tar"@ || s == ".nzb"@
                &&& s.len() <= name.len() && name.skip(name.len() - s.len()) == s
            },
            None => forall|base: Seq<char>| #![auto]
                name != base + ".tar.gz"@ && name != base + ".tgz"@ && name != base + ".zip"@
                    && name != base + ".rar"@ && name != base + ".7z"@ && name != base + ".tar"@
                    && name != base + ".nzb"@,
        },
{
    if super::suffix_spec(name) is None {
        assert forall|base: Seq<char>| #![auto]
            name != base + ".tar.gz"@ && name != base + ".tgz"@ && name != base + ".zip"@ && name
                != base + ".rar"@ && name != base + ".7z"@ && name != base + ".tar"@ && name != base
                + ".nzb"@ by {
            a_name_is_known_by_its_end(base);
        }
    }
}

/// The first bytes of an archive name its format, whatever follows them:
/// `Rar!` and two bytes, `PK` and two bytes, `7z` and four, and the two of
/// gzip.
pub proof fn the_first_bytes_name_the_format(rest: Seq<u8>)
    ensures
        super::magic_spec(seq![0x52u8, 0x61, 0x72, 0x21, 0x1a, 0x07] + rest) == Some(".rar"@),
        super::magic_spec(seq![0x50u8, 0x4b, 0x03, 0x04] + rest) == Some(".zip"@),
        super::magic_spec(seq![0x37u8, 0x7a, 0xbc, 0xaf, 0x27, 0x1c] + rest) == Some(".7z"@),
        super::magic_spec(seq![0x1fu8, 0x8b] + rest) == Some(".tar.gz"@),
{
    let rar = seq![0x52u8, 0x61, 0x72, 0x21, 0x1a, 0x07];
    let zip = seq![0x50u8, 0x4b, 0x03, 0x04];
    let sevenz = seq![0x37u8, 0x7a, 0xbc, 0xaf, 0x27, 0x1c];
    let gzip = seq![0x1fu8, 0x8b];
    assert((rar + rest).take(6) =~= rar);
    assert((zip + rest).take(4) =~= zip);
    assert((sevenz + rest).take(6) =~= sevenz);
    assert((gzip + rest).take(2) =~= gzip);
    lemma_other_start(zip + rest, rar);
    lemma_other_start(sevenz + rest, rar);
    lemma_other_start(sevenz + rest, zip);
    lemma_other_start(gzip + rest, rar);
    lemma_other_start(gzip + rest, zip);
    lemma_other_start(gzip + rest, sevenz);
}

proof fn lemma_other_start(s: Seq<u8>, prefix: Seq<u8>)
    requires
        s.len() > 0,
        prefix.len() > 0,
        s[0] != prefix[0],
    ensures
        !super::begins(s, prefix),
{
    if super::begins(s, prefix) {
        assert(s.take(prefix.len() as int)[0] == s[0]);
    }
}

/// A file that starts with none of these is a tar where `ustar` stands at
/// byte 257, and otherwise of no format that is known.
pub proof fn a_tar_is_known_inside_its_header(head: Seq<u8>)
    requires
        head.len() > 0,
        head[0] != 0x52,
        head[0] != 0x50,
        head[0] != 0x37,
        head[0] != 0x1f,
    ensures
        super::magic_spec(head) == (if head.len() >= 262 && head[257] == 0x75 && head[258] == 0x73
            && head[259] == 0x74 && head[260] == 0x61 && head[261] == 0x72 {
            Some(".tar"@)
        } else {
            None
        }),
{
    lemma_other_start(head, seq![0x52u8, 0x61, 0x72, 0x21, 0x1a, 0x07]);
    lemma_other_start(head, seq![0x50u8, 0x4b, 0x03, 0x04]);
    lemma_other_start(head, seq![0x37u8, 0x7a, 0xbc, 0xaf, 0x27, 0x1c]);
    lemma_other_start(head, seq![0x1fu8, 0x8b]);
    if head.len() >= 262 {
        let part = head.subrange(257, 262);
        let ustar = seq![0x75u8, 0x73, 0x74, 0x61, 0x72];
        assert(part[0] == head[257] && part[1] == head[258] && part[2] == head[259] && part[3]
            == head[260] && part[4] == head[261]);
        if head[257] == 0x75 && head[258] == 0x73 && head[259] == 0x74 && head[260] == 0x61
            && head[261] == 0x72 {
            assert(part =~= ustar);
        } else if part == ustar {
            assert(part[0] == 0x75 && part[1] == 0x73 && part[2] == 0x74 && part[3] == 0x61
                && part[4] == 0x72);
        }
    }
}

/// Each format has the reader that reads it.
pub proof fn each_format_has_its_own_reader(path: Seq<char>, dir: Seq<char>)
    ensures
        super::reader_for(".zip"@, path, dir) == Some(
            ReaderView::Zip { path: Some(path), cache_dir: dir },
        ),
        super::reader_for(".rar"@, path, dir) == Some(ReaderView::Rar { path, cache_dir: dir }),
        super::reader_for(".7z"@, path, dir) == Some(
            ReaderView::SevenZ { path: Some(path), cache_dir: dir },
        ),
        super::reader_for(".tar"@, path, dir) == Some(ReaderView::Tar { path }),
        super::reader_for(".tar.gz"@, path, dir) == Some(
            ReaderView::Tgz { path, cache_dir: dir },
        ),
        super::reader_for(".tgz"@, path, dir) == Some(ReaderView::Tgz { path, cache_dir: dir }),
        super::reader_for(".nzb"@, path, dir) == Some(ReaderView::Nzb { path }),
{
    reveal_strlit(".tar.gz");
    reveal_strlit(".tgz");
    reveal_strlit(".zip");
    reveal_strlit(".rar");
    reveal_strlit(".7z");
    reveal_strlit(".tar");
    reveal_strlit(".nzb");
    assert(".rar"@[1] == 'r' && ".zip"@[1] == 'z' && ".7z"@.len() == 3 && ".tar"@[1] == 't');
    assert(".tar.gz"@.len() == 7 && ".tgz"@[2] == 'g' && ".nzb"@[1] == 'n' && ".tar"@[2] == 'a');
}

// ---------------------------------------------------------------------
// Members

/// The bytes of a stored member begin behind its local header of thirty
/// bytes, its name and its extra field, whose lengths stand at bytes 26 and
/// 28; and they are served from there where the header has its signature and
/// the lowest bit of the flags at byte 6 does not say that they are
/// encrypted.
pub proof fn a_stored_member_begins_behind_its_header(
    m: MemberView,
    index: usize,
    header: Seq<u8>,
    name: int,
    extra: int,
)
    requires
        m.stored,
        header.len() == 30,
        header[26] + 256 * header[27] == name,
        header[28] + 256 * header[29] == extra,
        m.header_offset + 30 + name + extra <= u64::MAX,
    ensures
        header[0] == 0x50 && header[1] == 0x4b && header[2] == 0x03 && header[3] == 0x04
            && header[6] % 2 == 0 ==> zip::opened(m, index, header) == (OpenedMember::Direct {
            start: (m.header_offset + 30 + name + extra) as u64,
            len: m.size,
        }),
        header[0] != 0x50 || header[1] != 0x4b || header[2] != 0x03 || header[3] != 0x04
            || header[6] % 2 != 0 ==> zip::opened(m, index, header) == (OpenedMember::Extracted {
            index,
            size: m.size,
        }),
{
}

/// A member that is not stored is extracted, as long as it is said to be.
pub proof fn a_compressed_member_is_extracted(m: MemberView, index: usize, header: Seq<u8>)
    requires
        !m.stored,
    ensures
        zip::opened(m, index, header) == (OpenedMember::Extracted { index, size: m.size }),
{
}

/// The first member of a tar with a path is found, and none where none has
/// it.
pub proof fn the_first_of_a_path_is_found(s: Seq<TarMemberView>, path: Seq<char>, from: int)
    requires
        0 <= from <= s.len(),
    ensures
        match tar::member_from(s, path, from) {
            Some(m) => exists|i: int|
                from <= i < s.len() && #[trigger] s[i] == m && m.path == path && forall|j: int|
                    from <= j < i ==> (#[trigger] s[j]).path != path,
            None => forall|j: int| from <= j < s.len() ==> (#[trigger] s[j]).path != path,
        },
    decreases s.len() - from,
{
    if from < s.len() {
        if s[from].path == path {
            assert(s[from] == tar::member_from(s, path, from)->0);
        } else {
            the_first_of_a_path_is_found(s, path, from + 1);
            if let Some(m) = tar::member_from(s, path, from + 1) {
                let i = choose|i: int|
                    from + 1 <= i < s.len() && #[trigger] s[i] == m && m.path == path && forall|
                        j: int,
                    |
                        from + 1 <= j < i ==> (#[trigger] s[j]).path != path;
                assert(s[i] == m);
            }
        }
    }
}

/// The first entry of a 7z that has a name and is no directory is found, and
/// none where none is such.
pub proof fn the_first_file_of_a_name_is_found(
    s: Seq<SevenZEntryView>,
    name: Seq<char>,
    from: int,
)
    requires
        0 <= from <= s.len(),
    ensures
        match sevenz::entry_from(s, name, from) {
            Some(i) => from <= i < s.len() && s[i].name == name && !s[i].is_dir && forall|j: int|
                from <= j < i && (#[trigger] s[j]).name == name ==> s[j].is_dir,
            None => forall|j: int|
                from <= j < s.len() && (#[trigger] s[j]).name == name ==> s[j].is_dir,
        },
    decreases s.len() - from,
{
    if from < s.len() {
        the_first_file_of_a_name_is_found(s, name, from + 1);
    }
}

/// A member of a RAR is served exactly if it was found, is no directory and
/// says how long it is; and then under its own index, that long.
pub proof fn a_rar_member_is_served_with_its_length(
    index: Option<usize>,
    info: Option<RarMemberView>,
    name: Seq<char>,
)
    ensures
        forall|i: usize, n: u64|
            rar::resolved(index, info, name) == Ok::<(usize, u64), Seq<char>>((i, n)) <==> index
                == Some(i) && (info matches Some(m) && !m.is_directory && m.unpacked_size == Some(
                n,
            )),
        index is None || info is None ==> rar::resolved(index, info, name) == Err::<
            (usize, u64),
            Seq<char>,
        >("File not found in archive: "@ + name),
        index is Some && (info matches Some(m) && m.is_directory) ==> rar::resolved(
            index,
            info,
            name,
        ) == Err::<(usize, u64), Seq<char>>("Cannot stream a directory entry: "@ + name),
{
}

// ---------------------------------------------------------------------
// Reading

/// A read of a window takes all that the reader has room for, unless the
/// member ends before.
pub proof fn a_read_stops_only_at_the_members_end(w: WindowView, remaining: int)
    requires
        0 <= remaining,
    ensures
        w.pos + remaining <= w.len ==> window::wanted(w, remaining) == remaining,
        w.pos <= w.len <= w.pos + remaining ==> window::wanted(w, remaining) == w.len - w.pos,
        w.len < w.pos ==> window::wanted(w, remaining) == 0,
{
}

/// A seek goes to a place counted from the member's start, from its end, or
/// from where the window is; before the start from its end is the start, and
/// before it from where the window is, nowhere.
pub proof fn a_seek_is_counted_from_where_it_says(w: WindowView, n: i64, at: u64)
    ensures
        window::target(w, SeekFrom::Start(at)) == Some(at as int),
        0 <= w.len + n <= u64::MAX ==> window::target(w, SeekFrom::End(n)) == Some(w.len + n),
        w.len + n < 0 ==> window::target(w, SeekFrom::End(n)) == Some(0int),
        0 <= w.pos + n ==> window::target(w, SeekFrom::Current(n)) == Some(w.pos + n),
        w.pos + n < 0 ==> window::target(w, SeekFrom::Current(n)) is None,
{
}

/// A reader of a member that is being extracted fails where the extraction
/// did; reads what is written and not read, as much as there is room for;
/// ends where all that there is was read; and otherwise waits for more.
pub proof fn a_reader_reads_what_is_written(
    r: cache::ReaderView,
    s: cache::StateView,
    remaining: int,
    called: bool,
)
    requires
        0 <= remaining,
    ensures
        s.error matches Some(e) ==> cache::step(r, s, remaining, called) == cache::StepView::Fail(
            e,
        ),
        s.error is None && r.pos < s.written_bytes && 0 < remaining <= s.written_bytes - r.pos
            ==> cache::step(r, s, remaining, called) == cache::StepView::ReadFile(remaining),
        s.error is None && r.pos < s.written_bytes && s.written_bytes - r.pos <= remaining
            ==> cache::step(r, s, remaining, called) == cache::StepView::ReadFile(
            s.written_bytes - r.pos,
        ),
        s.error is None && r.pos < s.written_bytes && remaining == 0 ==> cache::step(
            r,
            s,
            remaining,
            called,
        ) is Ready,
        s.error is None && r.pos >= s.written_bytes && s.is_complete ==> cache::step(
            r,
            s,
            remaining,
            called,
        ) is Ready,
        s.error is None && r.pos >= s.written_bytes && !s.is_complete && called ==> cache::step(
            r,
            s,
            remaining,
            called,
        ) is Retry,
        s.error is None && r.pos >= s.written_bytes && !s.is_complete && !called ==> cache::step(
            r,
            s,
            remaining,
            called,
        ) is Park,
{
}

/// An extraction is given up once nobody has read it for as long as its
/// writer waits, counted from the first look that found nobody, and not
/// before; a reader starts the wait anew.
pub proof fn an_extraction_is_given_up_after_its_wait(
    after: u64,
    since: Option<u64>,
    now: u64,
)
    ensures
        ({
            let a = cache::AbandonmentView { unread_since: since, after };
            &&& !cache::is_abandoned(a, true, now)
            &&& cache::unread_since(a, true, now) is None
            &&& since is None ==> cache::unread_since(a, false, now) == Some(now) && (
            cache::is_abandoned(a, false, now) <==> after == 0)
            &&& since matches Some(t) ==> cache::unread_since(a, false, now) == Some(t) && (now >= t
                ==> (cache::is_abandoned(a, false, now) <==> now - t >= after))
        }),
{
}

// ---------------------------------------------------------------------
// News

/// A server that answers a name with 281 needs no password, one that answers
/// 381 does, and after the password only 281 will do; any other answer is a
/// failure, told with what the server said.
pub proof fn an_authentication_goes_by_the_servers_answers(rest: Seq<char>)
    ensures
        nntp::auth_spec(AuthState::UserSent, "381"@ + rest) == Ok::<AuthState, Seq<char>>(
            AuthState::PasswordSent,
        ),
        nntp::auth_spec(AuthState::UserSent, "281"@ + rest) == Ok::<AuthState, Seq<char>>(
            AuthState::Done,
        ),
        nntp::auth_spec(AuthState::PasswordSent, "281"@ + rest) == Ok::<AuthState, Seq<char>>(
            AuthState::Done,
        ),
        nntp::auth_spec(AuthState::PasswordSent, "381"@ + rest) == Err::<AuthState, Seq<char>>(
            "NNTP Authentication failed: "@ + ("381"@ + rest),
        ),
        nntp::welcomes("200"@ + rest),
        nntp::welcomes("201"@ + rest),
{
    reveal_strlit("381");
    reveal_strlit("281");
    reveal_strlit("200");
    reveal_strlit("201");
    assert(("381"@ + rest).take(3) =~= "381"@);
    assert(("281"@ + rest).take(3) =~= "281"@);
    assert(("200"@ + rest).take(3) =~= "200"@);
    assert(("201"@ + rest).take(3) =~= "201"@);
    assert(("281"@ + rest).take(3)[0] == '2');
    assert(("381"@ + rest).take(3)[0] == '3');
}

/// A server that answers otherwise is not let through.
pub proof fn any_other_answer_is_a_failure(answer: Seq<char>)
    requires
        answer.len() < 3 || answer.take(3) != "281"@,
    ensures
        nntp::auth_spec(AuthState::PasswordSent, answer) is Err,
        answer.len() < 3 || answer.take(3) != "381"@ ==> nntp::auth_spec(
            AuthState::UserSent,
            answer,
        ) is Err,
        (answer.len() < 3 || (answer.take(3) != "200"@ && answer.take(3) != "201"@))
            ==> !nntp::welcomes(answer),
{
    reveal_strlit("381");
    reveal_strlit("281");
    reveal_strlit("200");
    reveal_strlit("201");
}

/// An article is asked for by its id between `<` and `>`, whether the id has
/// them or not.
pub proof fn an_id_is_asked_for_in_brackets(id: Seq<char>)
    requires
        id.len() == 0 || id[0] != '<',
    ensures
        nntp::bracketed(id) == seq!['<'] + id + seq!['>'],
        nntp::bracketed(seq!['<'] + id + seq!['>']) == seq!['<'] + id + seq!['>'],
{
    reveal_strlit("<");
    reveal_strlit(">");
    assert("<"@ =~= seq!['<']);
    assert(">"@ =~= seq!['>']);
    let whole = seq!['<'] + id + seq!['>'];
    assert(whole.take(1) =~= "<"@);
    if text::has_prefix(id, "<"@) {
        assert(id.take(1)[0] == id[0]);
    }
}

/// The first posted file whose subject holds the name asked for is streamed,
/// and none where none does.
pub proof fn the_first_subject_that_names_a_file_is_found(files: Seq<NzbFile>, name: Seq<char>)
    ensures
        match session::named(files, name) {
            Some(i) => 0 <= i < files.len() && text::holds(files[i].subject@, name) && forall|j: int|
                0 <= j < i ==> !text::holds((#[trigger] files[j]).subject@, name),
            None => forall|j: int|
                0 <= j < files.len() ==> !text::holds((#[trigger] files[j]).subject@, name),
        },
    decreases files.len(),
{
    if files.len() > 0 {
        let front = files.drop_last();
        the_first_subject_that_names_a_file_is_found(front, name);
        match session::named(front, name) {
            Some(i) => {
                assert forall|j: int| 0 <= j < i implies !text::holds(
                    (#[trigger] files[j]).subject@,
                    name,
                ) by {
                    assert(front[j] == files[j]);
                }
            },
            None => {
                assert forall|j: int| 0 <= j < files.len() - 1 implies !text::holds(
                    (#[trigger] files[j]).subject@,
                    name,
                ) by {
                    assert(front[j] == files[j]);
                }
            },
        }
    }
}

/// A server gets as many connections as are asked for, where that is between
/// one and fifty, and the nearer of the two otherwise.
pub proof fn connections_are_what_is_asked_for_within_bounds(asked: u32)
    ensures
        1 <= asked <= 50 ==> session::clamped(asked) == asked,
        asked == 0 ==> session::clamped(asked) == 1,
        asked > 50 ==> session::clamped(asked) == 50,
{
}

/// Two archives of torrents have one key only where they are one archive of
/// one torrent: a hash holds no `/`.
pub proof fn each_archive_of_a_torrent_has_its_own_key(
    a: Seq<char>,
    path_a: Seq<char>,
    b: Seq<char>,
    path_b: Seq<char>,
)
    requires
        forall|i: int| 0 <= i < a.len() ==> a[i] != '/',
        forall|i: int| 0 <= i < b.len() ==> b[i] != '/',
        super::torrent::archive_key(a, path_a) == super::torrent::archive_key(b, path_b),
    ensures
        a == b && path_a == path_b,
{
    reveal_strlit("/");
    let x = a + "/"@ + path_a;
    let y = b + "/"@ + path_b;
    assert(x[a.len() as int] == '/');
    assert(y[b.len() as int] == '/');
    if a.len() < b.len() {
        assert(y[a.len() as int] == b[a.len() as int]);
    }
    if b.len() < a.len() {
        assert(x[b.len() as int] == a[b.len() as int]);
    }
    assert(a =~= x.take(a.len() as int));
    assert(b =~= y.take(b.len() as int));
    assert(path_a =~= x.skip(a.len() as int + 1));
    assert(path_b =~= y.skip(b.len() as int + 1));
}

/// A posted file is as long as its segments are together, however they are
/// split up.
pub proof fn a_whole_is_the_sum_of_its_parts(
    a: Seq<super::nzb::SegmentView>,
    b: Seq<super::nzb::SegmentView>,
    s: super::nzb::SegmentView,
)
    ensures
        super::nzb::total_bytes(a + b) == super::nzb::total_bytes(a) + super::nzb::total_bytes(b),
        super::nzb::total_bytes(seq![s]) == s.bytes,
    decreases b.len(),
{
    assert(seq![s].drop_last() =~= Seq::empty());
    assert(super::nzb::total_bytes(Seq::empty()) == 0);
    if b.len() == 0 {
        assert(a + b =~= a);
    } else {
        assert((a + b).drop_last() =~= a + b.drop_last());
        a_whole_is_the_sum_of_its_parts(a, b.drop_last(), s);
    }
}

/// Servers have the connections of each of them together.
pub proof fn servers_have_their_connections_together(
    a: Seq<session::NzbServerConfig>,
    b: Seq<session::NzbServerConfig>,
    s: session::NzbServerConfig,
)
    ensures
        session::total(a + b) == session::total(a) + session::total(b),
        session::total(seq![s]) == s.connections,
    decreases b.len(),
{
    assert(seq![s].drop_last() =~= Seq::empty());
    assert(session::total(Seq::empty()) == 0);
    if b.len() == 0 {
        assert(a + b =~= a);
    } else {
        assert((a + b).drop_last() =~= a + b.drop_last());
        servers_have_their_connections_together(a, b.drop_last(), s);
    }
}

} // verus!
