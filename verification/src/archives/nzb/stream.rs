//! A posted file as a stream of bytes: yEnc, and the order segments are
//! fetched in.
use super::{NzbFile, NzbSegment, SegmentView};
use vstd::prelude::*;
use vstd::slice::{slice_subrange, slice_to_vec};

verus! {

// ---------------------------------------------------------------------
// yEnc

/// `=ybegin`.
pub open spec fn begin_marker() -> Seq<u8> {
    seq![0x3d, 0x79, 0x62, 0x65, 0x67, 0x69, 0x6e]
}

/// `=ypart`.
pub open spec fn part_marker() -> Seq<u8> {
    seq![0x3d, 0x79, 0x70, 0x61, 0x72, 0x74]
}

/// `=yend`.
pub open spec fn end_marker() -> Seq<u8> {
    seq![0x3d, 0x79, 0x65, 0x6e, 0x64]
}

/// Whether bytes start with others.
pub open spec fn begins(s: Seq<u8>, prefix: Seq<u8>) -> bool {
    prefix.len() <= s.len() && s.take(prefix.len() as int) == prefix
}

/// A byte less a number, around the end of its range.
pub open spec fn less(b: u8, k: int) -> u8 {
    ((b - k) % 256) as u8
}

/// Where bytes first hold a marker, or their start where they do not.
pub open spec fn marker_at(s: Seq<u8>, marker: Seq<u8>, from: int) -> int
    decreases s.len() - from,
{
    if from >= s.len() {
        0
    } else if begins(s.skip(from), marker) {
        from
    } else {
        marker_at(s, marker, from + 1)
    }
}

/// What follows the first line: everything where there is only one.
pub open spec fn after_line(s: Seq<u8>) -> Seq<u8> {
    after_line_from(s, 0)
}

/// What follows the first line end at `from` or behind it.
pub open spec fn after_line_from(s: Seq<u8>, from: int) -> Seq<u8>
    decreases s.len() - from,
{
    if from >= s.len() {
        s
    } else if s[from] == 0x0a {
        s.skip(from + 1)
    } else {
        after_line_from(s, from + 1)
    }
}

/// What the lines of data hold: every byte is 42 above what it stands for,
/// `=` says that the next one is 64 above that, line ends stand for nothing,
/// and `=yend` ends the data.
pub open spec fn data(s: Seq<u8>) -> Seq<u8>
    decreases s.len(),
{
    if s.len() == 0 || begins(s, end_marker()) {
        Seq::empty()
    } else if s[0] == 0x3d {
        if s.len() == 1 {
            Seq::empty()
        } else {
            seq![less(s[1], 106)] + data(s.skip(2))
        }
    } else if s[0] == 0x0d || s[0] == 0x0a {
        data(s.skip(1))
    } else {
        seq![less(s[0], 42)] + data(s.skip(1))
    }
}

/// Where the data of an article starts: behind the line of `=ybegin`, and
/// behind that of `=ypart` where it follows.
pub open spec fn payload(article: Seq<u8>) -> Seq<u8> {
    let first = after_line(article.skip(marker_at(article, begin_marker(), 0)));
    if begins(first, part_marker()) {
        after_line(first)
    } else {
        first
    }
}

/// What an article holds.
pub open spec fn article_data(article: Seq<u8>) -> Seq<u8> {
    data(payload(article))
}

fn begins_at(s: &[u8], at: usize, prefix: &[u8]) -> (r: bool)
    requires
        at <= s@.len(),
    ensures
        r == begins(s@.skip(at as int), prefix@),
{
    let n: usize = prefix.len();
    let len: usize = s.len();
    if n > len - at {
        return false;
    }
    let mut i: usize = 0;
    while i < n
        invariant
            i <= n,
            n == prefix@.len(),
            len == s@.len(),
            at + n <= len,
            forall|j: int| 0 <= j < i ==> s@[at + j] == prefix@[j],
        decreases n - i,
    {
        if s[at + i] != prefix[i] {
            proof {
                assert(s@.skip(at as int).take(n as int)[i as int] == s@[at + i]);
            }
            return false;
        }
        i += 1;
    }
    proof {
        assert(s@.skip(at as int).take(n as int) =~= prefix@);
    }
    true
}

fn find_marker(s: &[u8], marker: &[u8]) -> (at: usize)
    ensures
        at == marker_at(s@, marker@, 0),
        at <= s@.len(),
{
    let mut i: usize = 0;
    while i < s.len()
        invariant
            i <= s@.len(),
            marker_at(s@, marker@, 0) == marker_at(s@, marker@, i as int),
        decreases s@.len() - i,
    {
        if begins_at(s, i, marker) {
            return i;
        }
        i += 1;
    }
    0
}

/// Where what follows the line at `at` starts.
fn past_line(s: &[u8], at: usize) -> (next: usize)
    requires
        at <= s@.len(),
    ensures
        at <= next <= s@.len(),
        s@.skip(next as int) == after_line(s@.skip(at as int)),
{
    let len: usize = s.len();
    let mut i: usize = at;
    let ghost from = s@.skip(at as int);
    while i < len
        invariant
            at <= i <= len,
            len == s@.len(),
            from == s@.skip(at as int),
            after_line(from) == after_line_from(from, i - at),
        decreases len - i,
    {
        if s[i] == 0x0a {
            proof {
                assert(from[i - at] == s@[i as int]);
                assert(from.skip(i - at + 1) =~= s@.skip(i + 1));
            }
            return i + 1;
        }
        i += 1;
    }
    at
}

/// The bytes an article of a posted file holds. One without a header is
/// taken from its start, and one without an end to its own.
pub fn decode_yenc(input: &[u8]) -> (r: Result<Vec<u8>, String>)
    ensures
        r is Ok,
        r->Ok_0@ == article_data(input@),
{
    let begin = [0x3du8, 0x79, 0x62, 0x65, 0x67, 0x69, 0x6e];
    let part = [0x3du8, 0x79, 0x70, 0x61, 0x72, 0x74];
    let end = [0x3du8, 0x79, 0x65, 0x6e, 0x64];
    proof {
        assert(begin@ =~= begin_marker());
        assert(part@ =~= part_marker());
        assert(end@ =~= end_marker());
    }
    let start = find_marker(input, begin.as_slice());
    let mut data_start = past_line(input, start);
    if begins_at(input, data_start, part.as_slice()) {
        data_start = past_line(input, data_start);
    }
    let len: usize = input.len();
    let mut output: Vec<u8> = Vec::new();
    let mut i: usize = data_start;
    let ghost whole = article_data(input@);
    proof {
        assert(output@ + data(input@.skip(i as int)) =~= whole);
    }
    while i < len
        invariant
            i <= len,
            len == input@.len(),
            end@ == end_marker(),
            whole == article_data(input@),
            output@ + data(input@.skip(i as int)) == whole,
        decreases len - i,
    {
        let b: u8 = input[i];
        let ghost rest = input@.skip(i as int);
        let ghost sofar = output@;
        if b == 0x3d {
            if begins_at(input, i, end.as_slice()) {
                proof {
                    assert(output@ =~= whole);
                }
                return Ok(output);
            }
            if i + 1 >= len {
                proof {
                    assert(output@ =~= whole);
                }
                return Ok(output);
            }
            let escaped: u8 = input[i + 1];
            output.push(escaped.wrapping_sub(64).wrapping_sub(42));
            proof {
                assert(output@.last() == less(escaped, 106));
                assert(rest.skip(2) =~= input@.skip(i + 2));
                assert(output@ =~= sofar + seq![less(escaped, 106)]);
                assert(sofar + (seq![less(escaped, 106)] + data(rest.skip(2))) =~= output@ + data(
                    rest.skip(2),
                ));
            }
            i += 2;
        } else if b == 0x0d || b == 0x0a {
            proof {
                assert(!begins(rest, end_marker())) by {
                    assert(end_marker()[0] == 0x3d);
                    if begins(rest, end_marker()) {
                        assert(rest.take(end_marker().len() as int)[0] == rest[0]);
                    }
                }
                assert(rest.skip(1) =~= input@.skip(i + 1));
            }
            i += 1;
        } else {
            output.push(b.wrapping_sub(42));
            proof {
                assert(output@.last() == less(b, 42));
                assert(!begins(rest, end_marker())) by {
                    assert(end_marker()[0] == 0x3d);
                    if begins(rest, end_marker()) {
                        assert(rest.take(end_marker().len() as int)[0] == rest[0]);
                    }
                }
                assert(rest.skip(1) =~= input@.skip(i + 1));
                assert(output@ =~= sofar + seq![less(b, 42)]);
                assert(sofar + (seq![less(b, 42)] + data(rest.skip(1))) =~= output@ + data(
                    rest.skip(1),
                ));
            }
            i += 1;
        }
    }
    proof {
        assert(input@.skip(len as int).len() == 0);
        assert(output@ =~= whole);
    }
    Ok(output)
}

/// How a byte is posted: 42 above what it stands for, and where that is a
/// byte a news server might trip over, as `=` and 64 above that.
pub open spec fn encoded_byte(b: u8) -> Seq<u8> {
    let e = ((b + 42) % 256) as u8;
    if e == 0x00 || e == 0x0a || e == 0x0d || e == 0x3d {
        seq![0x3d, ((e + 64) % 256) as u8]
    } else {
        seq![e]
    }
}

/// How bytes are posted.
pub open spec fn encoded(d: Seq<u8>) -> Seq<u8>
    decreases d.len(),
{
    if d.len() == 0 {
        Seq::empty()
    } else {
        encoded_byte(d[0]) + encoded(d.skip(1))
    }
}

/// Whether bytes end a line and nothing else.
pub open spec fn is_line_end(end: Seq<u8>) -> bool {
    end.len() > 0 && forall|i: int| 0 <= i < end.len() ==> end[i] == 0x0d || end[i] == 0x0a
}

/// How lines of bytes are posted: each followed by a line end.
pub open spec fn encoded_lines(lines: Seq<Seq<u8>>, end: Seq<u8>) -> Seq<u8>
    decreases lines.len(),
{
    if lines.len() == 0 {
        Seq::empty()
    } else {
        encoded(lines[0]) + end + encoded_lines(lines.skip(1), end)
    }
}

/// Lines of bytes, one after the other.
pub open spec fn joined(lines: Seq<Seq<u8>>) -> Seq<u8>
    decreases lines.len(),
{
    if lines.len() == 0 {
        Seq::empty()
    } else {
        lines[0] + joined(lines.skip(1))
    }
}

/// A posted byte never looks like a marker.
proof fn lemma_no_marker(b: u8, rest: Seq<u8>)
    ensures
        !begins(encoded_byte(b) + rest, end_marker()),
        !begins(encoded_byte(b) + rest, part_marker()),
{
    let s = encoded_byte(b) + rest;
    assert(end_marker()[0] == 0x3d && end_marker()[1] == 0x79);
    assert(part_marker()[0] == 0x3d && part_marker()[1] == 0x79);
    assert(s[0] == encoded_byte(b)[0]);
    if begins(s, end_marker()) {
        assert(s.take(end_marker().len() as int)[0] == s[0]);
        assert(s.take(end_marker().len() as int)[1] == s[1]);
    }
    if begins(s, part_marker()) {
        assert(s.take(part_marker().len() as int)[0] == s[0]);
        assert(s.take(part_marker().len() as int)[1] == s[1]);
    }
    if encoded_byte(b).len() == 2 {
        assert(s[1] == encoded_byte(b)[1]);
    }
}

/// A posted byte stands for itself.
proof fn lemma_encoded_byte(b: u8)
    ensures
        ({
            let e = encoded_byte(b);
            ||| e.len() == 2 && e[0] == 0x3d && less(e[1], 106) == b
            ||| e.len() == 1 && e[0] != 0x3d && e[0] != 0x0d && e[0] != 0x0a && less(e[0], 42) == b
        }),
{
}

/// A posted byte is read back, whatever follows it.
proof fn lemma_one_encoded(b: u8, rest: Seq<u8>)
    ensures
        data(encoded_byte(b) + rest) == seq![b] + data(rest),
{
    let e = encoded_byte(b);
    let s = e + rest;
    lemma_encoded_byte(b);
    lemma_no_marker(b, rest);
    assert(s[0] == e[0]);
    if e.len() == 2 {
        assert(s[1] == e[1]);
        assert(s.skip(2) =~= rest);
    } else {
        assert(s.skip(1) =~= rest);
    }
}

/// Posted bytes are read back, whatever follows them.
proof fn lemma_encoded(d: Seq<u8>, rest: Seq<u8>)
    ensures
        data(encoded(d) + rest) == d + data(rest),
    decreases d.len(),
{
    if d.len() == 0 {
        assert(encoded(d) + rest =~= rest);
        assert(d + data(rest) =~= data(rest));
    } else {
        let after = encoded(d.skip(1)) + rest;
        assert(encoded(d) + rest =~= encoded_byte(d[0]) + after);
        lemma_one_encoded(d[0], after);
        lemma_encoded(d.skip(1), rest);
        assert(seq![d[0]] + (d.skip(1) + data(rest)) =~= d + data(rest));
    }
}

/// A line end stands for nothing.
proof fn lemma_line_end(end: Seq<u8>, rest: Seq<u8>)
    requires
        forall|i: int| 0 <= i < end.len() ==> end[i] == 0x0d || end[i] == 0x0a,
    ensures
        data(end + rest) == data(rest),
    decreases end.len(),
{
    if end.len() == 0 {
        assert(end + rest =~= rest);
    } else {
        let s = end + rest;
        assert(end_marker()[0] == 0x3d);
        assert(s[0] == end[0]);
        if begins(s, end_marker()) {
            assert(s.take(end_marker().len() as int)[0] == s[0]);
        }
        assert(s.skip(1) =~= end.skip(1) + rest);
        lemma_line_end(end.skip(1), rest);
    }
}

proof fn lemma_encoded_lines(lines: Seq<Seq<u8>>, end: Seq<u8>, rest: Seq<u8>)
    requires
        is_line_end(end),
    ensures
        data(encoded_lines(lines, end) + rest) == joined(lines) + data(rest),
    decreases lines.len(),
{
    if lines.len() == 0 {
        assert(encoded_lines(lines, end) + rest =~= rest);
        assert(joined(lines) + data(rest) =~= data(rest));
    } else {
        let after = encoded_lines(lines.skip(1), end) + rest;
        let broken = end + after;
        assert(encoded_lines(lines, end) + rest =~= encoded(lines[0]) + broken);
        lemma_encoded(lines[0], broken);
        lemma_line_end(end, after);
        lemma_encoded_lines(lines.skip(1), end, rest);
        assert(lines[0] + (joined(lines.skip(1)) + data(rest)) =~= joined(lines) + data(rest));
    }
}

proof fn lemma_after_line(header: Seq<u8>, rest: Seq<u8>, from: int)
    requires
        0 <= from <= header.len(),
        forall|i: int| 0 <= i < header.len() ==> header[i] != 0x0a,
    ensures
        after_line_from(header + seq![0x0au8] + rest, from) == rest,
    decreases header.len() - from,
{
    let s = header + seq![0x0au8] + rest;
    if from == header.len() {
        assert(s[from] == 0x0a);
        assert(s.skip(from + 1) =~= rest);
    } else {
        assert(s[from] == header[from]);
        lemma_after_line(header, rest, from + 1);
    }
}

/// Posted lines and what ends them never look like a second header.
proof fn lemma_not_part(lines: Seq<Seq<u8>>, end: Seq<u8>, tail: Seq<u8>)
    requires
        is_line_end(end),
    ensures
        !begins(encoded_lines(lines, end) + end_marker() + tail, part_marker()),
{
    let s = encoded_lines(lines, end) + end_marker() + tail;
    assert(part_marker()[0] == 0x3d && part_marker()[2] == 0x70);
    assert(end_marker()[2] == 0x65);
    if begins(s, part_marker()) {
        assert(s.take(part_marker().len() as int)[0] == s[0]);
        assert(s.take(part_marker().len() as int)[2] == s[2]);
        if lines.len() == 0 {
            assert(s[2] == end_marker()[2]);
        } else if lines[0].len() == 0 {
            assert(s[0] == end[0]);
        } else {
            let d = lines[0];
            let rest = encoded(d.skip(1)) + end + encoded_lines(lines.skip(1), end) + end_marker()
                + tail;
            assert(s =~= encoded_byte(d[0]) + rest);
            lemma_no_marker(d[0], rest);
        }
    }
}

/// What is posted is read back: an article of a header, of lines that post
/// some bytes, and of an end holds these bytes, line ends left out.
pub proof fn what_is_posted_is_read_back(
    header: Seq<u8>,
    lines: Seq<Seq<u8>>,
    end: Seq<u8>,
    tail: Seq<u8>,
)
    requires
        is_line_end(end),
        begins(header, begin_marker()),
        forall|i: int| 0 <= i < header.len() ==> header[i] != 0x0a,
    ensures
        article_data(
            header + seq![0x0au8] + (encoded_lines(lines, end) + end_marker() + tail),
        ) == joined(lines),
{
    let body = encoded_lines(lines, end) + end_marker() + tail;
    let article = header + seq![0x0au8] + body;
    assert(article.skip(0) =~= article);
    assert(article.take(begin_marker().len() as int) =~= header.take(begin_marker().len() as int));
    assert(marker_at(article, begin_marker(), 0) == 0);
    lemma_after_line(header, body, 0);
    lemma_not_part(lines, end, tail);
    assert(body =~= encoded_lines(lines, end) + (end_marker() + tail));
    lemma_encoded_lines(lines, end, end_marker() + tail);
    assert((end_marker() + tail).take(end_marker().len() as int) =~= end_marker());
    assert(data(end_marker() + tail) =~= Seq::<u8>::empty());
    assert(joined(lines) + Seq::<u8>::empty() =~= joined(lines));
}

/// And so does an article with a second header, for a file in parts.
pub proof fn what_is_posted_in_parts_is_read_back(
    header: Seq<u8>,
    part: Seq<u8>,
    lines: Seq<Seq<u8>>,
    end: Seq<u8>,
    tail: Seq<u8>,
)
    requires
        is_line_end(end),
        begins(header, begin_marker()),
        begins(part, part_marker()),
        forall|i: int| 0 <= i < header.len() ==> header[i] != 0x0a,
        forall|i: int| 0 <= i < part.len() ==> part[i] != 0x0a,
    ensures
        article_data(
            header + seq![0x0au8] + (part + seq![0x0au8] + (encoded_lines(lines, end)
                + end_marker() + tail)),
        ) == joined(lines),
{
    let body = encoded_lines(lines, end) + end_marker() + tail;
    let second = part + seq![0x0au8] + body;
    let article = header + seq![0x0au8] + second;
    assert(article.skip(0) =~= article);
    assert(article.take(begin_marker().len() as int) =~= header.take(begin_marker().len() as int));
    assert(marker_at(article, begin_marker(), 0) == 0);
    lemma_after_line(header, second, 0);
    assert(second.take(part_marker().len() as int) =~= part.take(part_marker().len() as int));
    lemma_after_line(part, body, 0);
    assert(body =~= encoded_lines(lines, end) + (end_marker() + tail));
    lemma_encoded_lines(lines, end, end_marker() + tail);
    assert((end_marker() + tail).take(end_marker().len() as int) =~= end_marker());
    assert(data(end_marker() + tail) =~= Seq::<u8>::empty());
    assert(joined(lines) + Seq::<u8>::empty() =~= joined(lines));
}

// ---------------------------------------------------------------------
// The stream

/// A segment put where it belongs among segments in order: behind the last
/// that does not come after it.
pub open spec fn inserted(s: Seq<SegmentView>, x: SegmentView) -> Seq<SegmentView>
    decreases s.len(),
{
    if s.len() == 0 {
        seq![x]
    } else if s.last().number <= x.number {
        s.push(x)
    } else {
        inserted(s.drop_last(), x).push(s.last())
    }
}

/// Segments in the order of their numbers, those with the same number as
/// they were.
pub open spec fn in_order(s: Seq<SegmentView>) -> Seq<SegmentView>
    decreases s.len(),
{
    if s.len() == 0 {
        s
    } else {
        inserted(in_order(s.drop_last()), s.last())
    }
}

fn insert(v: &mut Vec<NzbSegment>, x: NzbSegment)
    ensures
        super::segments_view(final(v)@) == inserted(super::segments_view(old(v)@), x@),
{
    let n: usize = v.len();
    let ghost before = super::segments_view(v@);
    let mut i: usize = n;
    proof {
        assert(before.take(n as int) =~= before);
        assert(before.skip(n as int) =~= Seq::<SegmentView>::empty());
        assert(inserted(before, x@) =~= inserted(before, x@) + Seq::<SegmentView>::empty());
    }
    while i > 0 && v[i - 1].number > x.number
        invariant
            i <= n,
            n == v@.len(),
            before == super::segments_view(v@),
            inserted(before, x@) == inserted(before.take(i as int), x@) + before.skip(i as int),
        decreases i,
    {
        proof {
            let a = before.take(i as int);
            assert(a.last() == v@[i - 1]@);
            assert(a.drop_last() =~= before.take(i - 1));
            assert(inserted(before.take(i - 1), x@).push(a.last()) + before.skip(i as int)
                =~= inserted(before.take(i - 1), x@) + before.skip(i - 1));
        }
        i -= 1;
    }
    proof {
        let a = before.take(i as int);
        if i > 0 {
            assert(a.last() == v@[i - 1]@);
        }
        assert(inserted(a, x@) =~= a.push(x@));
    }
    let ghost added = x@;
    v.insert(i, x);
    proof {
        assert(super::segments_view(v@) =~= before.take(i as int).push(added) + before.skip(
            i as int,
        ));
    }
}

/// The segments in the order of their numbers.
fn sorted(v: &Vec<NzbSegment>) -> (r: Vec<NzbSegment>)
    ensures
        super::segments_view(r@) == in_order(super::segments_view(v@)),
{
    let ghost all = super::segments_view(v@);
    let mut out: Vec<NzbSegment> = Vec::new();
    let mut i: usize = 0;
    proof {
        assert(super::segments_view(out@) =~= in_order(all.take(0)));
    }
    while i < v.len()
        invariant
            i <= v@.len(),
            all == super::segments_view(v@),
            super::segments_view(out@) == in_order(all.take(i as int)),
        decreases v@.len() - i,
    {
        proof {
            assert(all.take(i + 1).drop_last() =~= all.take(i as int));
            assert(all.take(i + 1).last() == v@[i as int]@);
        }
        insert(&mut out, v[i].copy());
        i += 1;
    }
    proof {
        assert(all.take(all.len() as int) =~= all);
    }
    out
}

/// What a stream does next.
#[derive(Debug)]
pub enum StreamStep {
    /// Hand these bytes to the reader.
    Give(Vec<u8>),
    /// The file is at its end.
    End,
    /// Fetch the segment with this message id.
    Fetch(String),
    /// Wait for the segment that is being fetched.
    Wait,
}

/// A file of an NZB as a stream, one segment after the other.
#[derive(Debug)]
pub struct NzbFileStream {
    segments: Vec<NzbSegment>,
    current_segment_idx: usize,
    buffer: Vec<u8>,
    fetching: bool,
}

/// What a [`NzbFileStream`] holds.
pub struct NzbStreamView {
    /// The segments of the file, in order.
    pub segments: Seq<SegmentView>,
    /// How many of them have been fetched.
    pub fetched: nat,
    /// Decoded data waiting to be read.
    pub buffer: Seq<u8>,
    /// Whether a segment is being fetched.
    pub fetching: bool,
}

impl View for NzbFileStream {
    type V = NzbStreamView;

    closed spec fn view(&self) -> NzbStreamView {
        NzbStreamView {
            segments: super::segments_view(self.segments@),
            fetched: self.current_segment_idx as nat,
            buffer: self.buffer@,
            fetching: self.fetching,
        }
    }
}

/// The smaller of two numbers.
pub open spec fn smaller(a: int, b: int) -> int {
    if a <= b {
        a
    } else {
        b
    }
}

impl NzbFileStream {
    /// Whether no more segments have been fetched than there are, and one is
    /// being fetched only where there is one left.
    pub open spec fn well_formed(&self) -> bool {
        &&& self@.fetched <= self@.segments.len()
        &&& self@.fetching ==> self@.fetched < self@.segments.len()
    }

    /// A stream over a file, from its start. The segments are sorted by
    /// number just in case.
    pub fn new(file: &NzbFile) -> (s: Self)
        ensures
            s.well_formed(),
            s@ == (NzbStreamView {
                segments: in_order(super::segments_view(file.segments@)),
                fetched: 0,
                buffer: Seq::empty(),
                fetching: false,
            }),
    {
        NzbFileStream {
            segments: sorted(&file.segments),
            current_segment_idx: 0,
            buffer: Vec::new(),
            fetching: false,
        }
    }

    /// What to do next for a reader that takes up to `remaining` bytes: hand
    /// out what is decoded; at the end of the file, end; and otherwise fetch
    /// the next segment, or wait for it.
    pub fn poll_read(&mut self, remaining: usize) -> (r: StreamStep)
        requires
            old(self).well_formed(),
        ensures
            final(self).well_formed(),
            ({
                let s = old(self)@;
                if s.buffer.len() > 0 {
                    let n = smaller(remaining as int, s.buffer.len() as int);
                    &&& r matches StreamStep::Give(bytes) && bytes@ == s.buffer.take(n)
                    &&& final(self)@ == (NzbStreamView { buffer: s.buffer.skip(n), ..s })
                } else if s.fetching {
                    &&& r is Wait
                    &&& final(self)@ == s
                } else if s.fetched >= s.segments.len() {
                    &&& r is End
                    &&& final(self)@ == s
                } else {
                    &&& r matches StreamStep::Fetch(id) && id@ == s.segments[s.fetched as int].id
                    &&& final(self)@ == (NzbStreamView { fetching: true, ..s })
                }
            }),
    {
        let len: usize = self.buffer.len();
        if len > 0 {
            let n: usize = if remaining <= len {
                remaining
            } else {
                len
            };
            proof {
                assert(self.buffer@.subrange(0, n as int) =~= self.buffer@.take(n as int));
                assert(self.buffer@.subrange(n as int, len as int) =~= self.buffer@.skip(n as int));
            }
            let given = slice_to_vec(slice_subrange(self.buffer.as_slice(), 0, n));
            let rest = slice_to_vec(slice_subrange(self.buffer.as_slice(), n, len));
            self.buffer = rest;
            return StreamStep::Give(given);
        }
        if self.fetching {
            return StreamStep::Wait;
        }
        if self.current_segment_idx >= self.segments.len() {
            return StreamStep::End;
        }
        self.fetching = true;
        StreamStep::Fetch(self.segments[self.current_segment_idx].id.clone())
    }

    /// Take in the segment that was being fetched: its body, decoded, is what
    /// the reader gets next. One that could not be fetched is an error, and
    /// is fetched again when the reader comes back.
    pub fn fetched(&mut self, body: Result<Vec<u8>, String>) -> (r: Result<(), String>)
        requires
            old(self).well_formed(),
            old(self)@.fetching,
            old(self)@.buffer.len() == 0,
        ensures
            final(self).well_formed(),
            match body {
                Ok(raw) => r is Ok && final(self)@ == (NzbStreamView {
                    fetched: old(self)@.fetched + 1,
                    buffer: article_data(raw@),
                    fetching: false,
                    ..old(self)@
                }),
                Err(e) => r matches Err(f) && f@ == e@ && final(self)@ == (NzbStreamView {
                    fetching: false,
                    ..old(self)@
                }),
            },
    {
        let n: usize = self.segments.len();
        proof {
            assert(self@.segments.len() == n);
        }
        self.fetching = false;
        match body {
            Ok(raw) => match decode_yenc(raw.as_slice()) {
                Ok(decoded) => {
                    self.buffer = decoded;
                    self.current_segment_idx = self.current_segment_idx + 1;
                    Ok(())
                },
                Err(e) => Err(e),
            },
            Err(e) => Err(e),
        }
    }
}

/// Putting a segment where it belongs adds it and keeps the order.
proof fn lemma_inserted(s: Seq<SegmentView>, x: SegmentView)
    ensures
        inserted(s, x).to_multiset() == s.to_multiset().insert(x),
        inserted(s, x).len() == s.len() + 1,
        is_in_order(s) ==> is_in_order(inserted(s, x)),
        forall|i: int|
            0 <= i < s.len() + 1 ==> #[trigger] inserted(s, x)[i] == x || s.contains(
                inserted(s, x)[i],
            ),
    decreases s.len(),
{
    broadcast use vstd::seq_lib::group_to_multiset_ensures;

    if s.len() == 0 {
        assert(seq![x] =~= Seq::<SegmentView>::empty().push(x));
        assert(s =~= Seq::<SegmentView>::empty());
    } else if s.last().number <= x.number {
        if is_in_order(s) {
            assert forall|i: int, j: int| 0 <= i < j < s.len() + 1 implies (#[trigger] s.push(
                x,
            )[i]).number <= (#[trigger] s.push(x)[j]).number by {
                if j == s.len() && i < s.len() - 1 {
                    assert(s[i].number <= s[s.len() - 1].number);
                }
            }
        }
        assert forall|i: int| 0 <= i < s.len() + 1 implies #[trigger] s.push(x)[i] == x
            || s.contains(s.push(x)[i]) by {
            if i < s.len() {
                assert(s.contains(s[i]));
            }
        }
    } else {
        let front = s.drop_last();
        let put = inserted(front, x);
        lemma_inserted(front, x);
        assert(s =~= front.push(s.last()));
        assert(front.to_multiset().insert(x).insert(s.last()) =~= front.to_multiset().insert(
            s.last(),
        ).insert(x));
        let r = put.push(s.last());
        assert forall|i: int| 0 <= i < s.len() + 1 implies #[trigger] r[i] == x || s.contains(
            r[i],
        ) by {
            if i < s.len() {
                assert(put[i] == x || front.contains(put[i]));
                if front.contains(put[i]) {
                    let k = choose|k: int| 0 <= k < front.len() && front[k] == put[i];
                    assert(s[k] == put[i]);
                }
            } else {
                assert(s[s.len() - 1] == r[i]);
            }
        }
        if is_in_order(s) {
            assert(is_in_order(front)) by {
                assert forall|i: int, j: int| 0 <= i < j < front.len() implies (
                #[trigger] front[i]).number <= (#[trigger] front[j]).number by {
                    assert(front[i] == s[i] && front[j] == s[j]);
                }
            }
            assert forall|i: int, j: int| 0 <= i < j < r.len() implies (#[trigger] r[i]).number
                <= (#[trigger] r[j]).number by {
                if j < put.len() {
                    assert(r[i] == put[i] && r[j] == put[j]);
                } else {
                    assert(put[i] == x || front.contains(put[i]));
                    if front.contains(put[i]) {
                        let k = choose|k: int| 0 <= k < front.len() && front[k] == put[i];
                        assert(s[k].number <= s[s.len() - 1].number);
                    }
                }
            }
        }
    }
}

/// Whether segments are in the order of their numbers.
pub open spec fn is_in_order(s: Seq<SegmentView>) -> bool {
    forall|i: int, j: int|
        0 <= i < j < s.len() ==> (#[trigger] s[i]).number <= (#[trigger] s[j]).number
}

/// A file is streamed by number: sorting loses no segment, adds none, and
/// puts them in the order of their numbers.
pub proof fn every_segment_is_streamed_in_order(s: Seq<SegmentView>)
    ensures
        is_in_order(in_order(s)),
        in_order(s).to_multiset() == s.to_multiset(),
        in_order(s).len() == s.len(),
    decreases s.len(),
{
    broadcast use vstd::seq_lib::group_to_multiset_ensures;

    if s.len() > 0 {
        every_segment_is_streamed_in_order(s.drop_last());
        lemma_inserted(in_order(s.drop_last()), s.last());
        assert(s =~= s.drop_last().push(s.last()));
    }
}

proof fn lemma_inserted_behind(s: Seq<SegmentView>, x: SegmentView, number: u32)
    ensures
        numbered(inserted(s, x), number) == (if x.number == number {
            numbered(s, number).push(x)
        } else {
            numbered(s, number)
        }) || !is_in_order(s),
    decreases s.len(),
{
    let f = |y: SegmentView| y.number == number;
    reveal(Seq::filter);
    if is_in_order(s) {
        if s.len() == 0 {
            assert(seq![x].drop_last() =~= Seq::empty());
            assert(s =~= Seq::empty());
            assert(numbered(s, number) =~= Seq::empty());
            assert(numbered(seq![x], number) =~= if x.number == number {
                seq![x]
            } else {
                Seq::empty()
            });
        } else if s.last().number <= x.number {
            assert(s.push(x).drop_last() =~= s);
        } else {
            let front = s.drop_last();
            let last = s.last();
            assert forall|i: int, j: int| 0 <= i < j < front.len() implies (
            #[trigger] front[i]).number <= (#[trigger] front[j]).number by {
                assert(front[i] == s[i] && front[j] == s[j]);
            }
            lemma_inserted_behind(front, x, number);
            let whole = inserted(front, x).push(last);
            assert(whole.drop_last() =~= inserted(front, x));
            if x.number == number {
                assert(last.number != number);
            }
        }
    }
}

/// The segments of a number, in the order they are listed in.
pub open spec fn numbered(s: Seq<SegmentView>, number: u32) -> Seq<SegmentView> {
    s.filter(|x: SegmentView| x.number == number)
}

/// Segments of one number are streamed in the order they are listed in.
pub proof fn segments_of_one_number_keep_their_order(s: Seq<SegmentView>, number: u32)
    ensures
        numbered(in_order(s), number) == numbered(s, number),
    decreases s.len(),
{
    if s.len() > 0 {
        let front = s.drop_last();
        segments_of_one_number_keep_their_order(front, number);
        every_segment_is_streamed_in_order(front);
        lemma_inserted_behind(in_order(front), s.last(), number);
        reveal(Seq::filter);
    }
}

proof fn lemma_marker_behind(junk: Seq<u8>, s: Seq<u8>, marker: Seq<u8>, from: int)
    requires
        s.len() > 0,
        0 <= from <= junk.len(),
        begins(s, marker),
        forall|i: int| 0 <= i < junk.len() ==> !begins(#[trigger] (junk + s).skip(i), marker),
    ensures
        marker_at(junk + s, marker, from) == junk.len(),
    decreases junk.len() - from,
{
    if from == junk.len() {
        assert((junk + s).skip(from) =~= s);
    } else {
        assert(!begins((junk + s).skip(from), marker));
        lemma_marker_behind(junk, s, marker, from + 1);
    }
}

proof fn lemma_no_marker_found(s: Seq<u8>, marker: Seq<u8>, from: int)
    requires
        0 <= from,
        forall|i: int| 0 <= i < s.len() ==> !begins(#[trigger] s.skip(i), marker),
    ensures
        marker_at(s, marker, from) == 0,
    decreases s.len() - from,
{
    if from < s.len() {
        assert(!begins(s.skip(from), marker));
        lemma_no_marker_found(s, marker, from + 1);
    }
}

proof fn lemma_one_line(s: Seq<u8>, from: int)
    requires
        0 <= from,
        forall|i: int| 0 <= i < s.len() ==> s[i] != 0x0a,
    ensures
        after_line_from(s, from) == s,
    decreases s.len() - from,
{
    if from < s.len() {
        lemma_one_line(s, from + 1);
    }
}

proof fn lemma_encoded_is_one_line(d: Seq<u8>)
    ensures
        forall|i: int| 0 <= i < encoded(d).len() ==> encoded(d)[i] != 0x0a,
    decreases d.len(),
{
    if d.len() > 0 {
        lemma_encoded_is_one_line(d.skip(1));
        let e = encoded_byte(d[0]);
        let rest = encoded(d.skip(1));
        assert forall|i: int| 0 <= i < encoded(d).len() implies encoded(d)[i] != 0x0a by {
            if i >= e.len() {
                assert((e + rest)[i] == rest[i - e.len()]);
            } else {
                assert((e + rest)[i] == e[i]);
            }
        }
    }
}

/// An article begins at the first header in it: what stands before that is
/// no part of it.
pub proof fn what_stands_before_a_header_is_skipped(junk: Seq<u8>, article: Seq<u8>)
    requires
        begins(article, begin_marker()),
        forall|i: int|
            0 <= i < junk.len() ==> !begins(#[trigger] (junk + article).skip(i), begin_marker()),
    ensures
        article_data(junk + article) == article_data(article),
{
    assert(begin_marker().len() == 7);
    lemma_marker_behind(junk, article, begin_marker(), 0);
    assert((junk + article).skip(junk.len() as int) =~= article);
    let none = Seq::<u8>::empty();
    assert(none + article =~= article);
    lemma_marker_behind(none, article, begin_marker(), 0);
    assert(article.skip(0) =~= article);
}

/// An article without a header is taken for one whose first line is the
/// header.
pub proof fn a_first_line_is_no_data(
    line: Seq<u8>,
    lines: Seq<Seq<u8>>,
    end: Seq<u8>,
    tail: Seq<u8>,
)
    requires
        is_line_end(end),
        forall|i: int| 0 <= i < line.len() ==> line[i] != 0x0a,
        ({
            let article = line + seq![0x0au8] + (encoded_lines(lines, end) + end_marker() + tail);
            forall|i: int|
                0 <= i < article.len() ==> !begins(#[trigger] article.skip(i), begin_marker())
        }),
    ensures
        article_data(
            line + seq![0x0au8] + (encoded_lines(lines, end) + end_marker() + tail),
        ) == joined(lines),
{
    let body = encoded_lines(lines, end) + end_marker() + tail;
    let article = line + seq![0x0au8] + body;
    lemma_no_marker_found(article, begin_marker(), 0);
    assert(article.skip(0) =~= article);
    lemma_after_line(line, body, 0);
    lemma_not_part(lines, end, tail);
    assert(body =~= encoded_lines(lines, end) + (end_marker() + tail));
    lemma_encoded_lines(lines, end, end_marker() + tail);
    assert((end_marker() + tail).take(end_marker().len() as int) =~= end_marker());
    assert(data(end_marker() + tail) =~= Seq::<u8>::empty());
    assert(joined(lines) + Seq::<u8>::empty() =~= joined(lines));
}

/// An article of a single line is data throughout.
pub proof fn a_single_line_is_data(d: Seq<u8>)
    requires
        forall|i: int|
            0 <= i < encoded(d).len() ==> !begins(#[trigger] encoded(d).skip(i), begin_marker()),
    ensures
        article_data(encoded(d)) == d,
{
    let article = encoded(d);
    let none = Seq::<u8>::empty();
    lemma_no_marker_found(article, begin_marker(), 0);
    assert(article.skip(0) =~= article);
    lemma_encoded_is_one_line(d);
    lemma_one_line(article, 0);
    if d.len() > 0 {
        lemma_no_marker(d[0], encoded(d.skip(1)));
    } else {
        assert(part_marker().len() == 6);
    }
    assert(article + none =~= article);
    lemma_encoded(d, none);
    assert(d + none =~= d);
}

/// An escape with nothing behind it stands for nothing.
pub proof fn an_escape_of_nothing_is_nothing(d: Seq<u8>)
    ensures
        data(encoded(d) + seq![0x3du8]) == d,
{
    lemma_encoded(d, seq![0x3du8]);
    assert(end_marker().len() == 5);
    assert(d + data(seq![0x3du8]) =~= d);
}

/// A read hands out as much as there is room for and data for.
pub proof fn a_read_is_as_long_as_it_can_be(room: int, left: int)
    ensures
        smaller(room, left) <= room,
        smaller(room, left) <= left,
        smaller(room, left) == room || smaller(room, left) == left,
{
}

} // verus!
