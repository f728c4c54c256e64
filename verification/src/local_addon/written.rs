//! Torrents as they are written, and what is read of them.
use super::sha1;
use super::torrent;
use super::torrent::{TorrentFileView, ValueView};
use crate::encoding;
use crate::numbers;
use crate::text;
use vstd::prelude::*;

verus! {

// ---------------------------------------------------------------------
// Values

/// A value with the order its keys are written in.
pub enum Written {
    Int(i64),
    Str(Seq<u8>),
    List(Seq<Written>),
    Dict(Seq<(Seq<u8>, Written)>),
}

/// The bytes of a text of ASCII characters.
pub open spec fn ascii(s: Seq<char>) -> Seq<u8> {
    s.map_values(|c: char| c as u8)
}

/// A byte string with its length before it.
pub open spec fn string_bytes(s: Seq<u8>) -> Seq<u8> {
    ascii(text::dec(s.len())) + ascii(":"@) + s
}

/// What a value is written as.
pub open spec fn value_bytes(w: Written) -> Seq<u8>
    decreases w,
{
    match w {
        Written::Int(i) => ascii("i"@) + ascii(text::signed_dec(i as int)) + ascii("e"@),
        Written::Str(s) => string_bytes(s),
        Written::List(items) => ascii("l"@) + items_bytes(items) + ascii("e"@),
        Written::Dict(pairs) => ascii("d"@) + pairs_bytes(pairs) + ascii("e"@),
    }
}

/// What values are written as, one behind the other.
pub open spec fn items_bytes(items: Seq<Written>) -> Seq<u8>
    decreases items,
{
    if items.len() == 0 {
        Seq::empty()
    } else {
        value_bytes(items[0]) + items_bytes(items.subrange(1, items.len() as int))
    }
}

/// What keys and values are written as, one behind the other.
pub open spec fn pairs_bytes(pairs: Seq<(Seq<u8>, Written)>) -> Seq<u8>
    decreases pairs,
{
    if pairs.len() == 0 {
        Seq::empty()
    } else {
        string_bytes(pairs[0].0) + value_bytes(pairs[0].1) + pairs_bytes(
            pairs.subrange(1, pairs.len() as int),
        )
    }
}

/// What a value says.
pub open spec fn said(w: Written) -> ValueView
    decreases w,
{
    match w {
        Written::Int(i) => ValueView::Int(i),
        Written::Str(s) => ValueView::Str(s),
        Written::List(items) => ValueView::List(said_items(items)),
        Written::Dict(pairs) => ValueView::Dict(said_pairs(pairs, Map::empty())),
    }
}

/// What values say, in order.
pub open spec fn said_items(items: Seq<Written>) -> Seq<ValueView>
    decreases items,
{
    if items.len() == 0 {
        Seq::empty()
    } else {
        seq![said(items[0])] + said_items(items.subrange(1, items.len() as int))
    }
}

/// What keys and values say over what is said already: the last value of a
/// key counts.
pub open spec fn said_pairs(
    pairs: Seq<(Seq<u8>, Written)>,
    over: Map<Seq<u8>, ValueView>,
) -> Map<Seq<u8>, ValueView>
    decreases pairs,
{
    if pairs.len() == 0 {
        over
    } else {
        said_pairs(
            pairs.subrange(1, pairs.len() as int),
            over.insert(pairs[0].0, said(pairs[0].1)),
        )
    }
}

/// Whether a value inside `depth` others is not inside more than 64, nor is
/// any in it, and its strings are no longer than a machine can count.
pub open spec fn fits(w: Written, depth: nat) -> bool
    decreases w,
{
    depth <= 64 && match w {
        Written::Int(_) => true,
        Written::Str(s) => s.len() <= usize::MAX,
        Written::List(items) => items_fit(items, depth + 1),
        Written::Dict(pairs) => pairs_fit(pairs, depth + 1),
    }
}

/// Whether each of some values fits.
pub open spec fn items_fit(items: Seq<Written>, depth: nat) -> bool
    decreases items,
{
    items.len() > 0 ==> fits(items[0], depth) && items_fit(
        items.subrange(1, items.len() as int),
        depth,
    )
}

/// Whether each of some keys and values fits.
pub open spec fn pairs_fit(pairs: Seq<(Seq<u8>, Written)>, depth: nat) -> bool
    decreases pairs,
{
    pairs.len() > 0 ==> pairs[0].0.len() <= usize::MAX && fits(pairs[0].1, depth) && pairs_fit(
        pairs.subrange(1, pairs.len() as int),
        depth,
    )
}

proof fn lemma_byte_of(c: char)
    requires
        (c as int) < 0x80,
    ensures
        (c as u8) as int == c as int,
        (c as u8) as char == c,
{
}

proof fn lemma_ascii(s: Seq<char>)
    requires
        forall|i: int| 0 <= i < s.len() ==> (#[trigger] s[i] as int) < 0x80,
    ensures
        text::latin1(ascii(s)) == s,
{
    assert forall|i: int| 0 <= i < s.len() implies #[trigger] text::latin1(ascii(s))[i] == s[i] by {
        lemma_byte_of(s[i]);
        assert(ascii(s)[i] == s[i] as u8);
    }
    assert(text::latin1(ascii(s)) =~= s);
}

proof fn lemma_letters()
    ensures
        ascii("i"@) == seq![0x69u8],
        ascii("l"@) == seq![0x6cu8],
        ascii("d"@) == seq![0x64u8],
        ascii("e"@) == seq![0x65u8],
        ascii(":"@) == seq![0x3au8],
{
    reveal_strlit("i");
    reveal_strlit("l");
    reveal_strlit("d");
    reveal_strlit("e");
    reveal_strlit(":");
    assert(ascii("i"@) =~= seq![0x69u8]);
    assert(ascii("l"@) =~= seq![0x6cu8]);
    assert(ascii("d"@) =~= seq![0x64u8]);
    assert(ascii("e"@) =~= seq![0x65u8]);
    assert(ascii(":"@) =~= seq![0x3au8]);
}

/// The digits of a whole number are digits, behind a `-` where it is
/// negative.
proof fn lemma_digits(n: int)
    ensures
        text::signed_dec(n).len() > 0,
        text::latin1(ascii(text::signed_dec(n))) == text::signed_dec(n),
        forall|i: int|
            0 <= i < text::signed_dec(n).len() ==> 0x30 <= #[trigger] ascii(text::signed_dec(n))[i]
                <= 0x39 || (i == 0 && n < 0 && ascii(text::signed_dec(n))[i] == 0x2d),
{
    reveal_strlit("-");
    let s = text::signed_dec(n);
    let m = if n < 0 {
        (-n) as nat
    } else {
        n as nat
    };
    numbers::a_number_written_is_read_back(m);
    assert forall|i: int| 0 <= i < s.len() implies (#[trigger] s[i] as int) < 0x80 && (
    numbers::is_digit(s[i]) || (i == 0 && n < 0 && s[i] == '-')) by {
        if n < 0 && i > 0 {
            assert(s[i] == text::dec(m)[i - 1]);
            assert(numbers::is_digit(text::dec(m)[i - 1]));
        } else if n >= 0 {
            assert(numbers::is_digit(text::dec(m)[i]));
        }
    }
    lemma_ascii(s);
    assert forall|i: int| 0 <= i < s.len() implies 0x30 <= #[trigger] ascii(s)[i] <= 0x39 || (i == 0
        && n < 0 && ascii(s)[i] == 0x2d) by {
        assert(numbers::is_digit(s[i]) || s[i] == '-');
    }
}

/// What does not hold a byte, with the byte behind it, holds it there first.
proof fn lemma_found_behind(a: Seq<u8>, b: u8, tail: Seq<u8>)
    requires
        forall|i: int| 0 <= i < a.len() ==> a[i] != b,
    ensures
        torrent::find_byte(a + seq![b] + tail, b) == Some(a.len() as int),
    decreases a.len(),
{
    let s = a + seq![b] + tail;
    if a.len() > 0 {
        assert(s.skip(1) =~= a.skip(1) + seq![b] + tail);
        lemma_found_behind(a.skip(1), b, tail);
    }
}

proof fn lemma_string_read(s: Seq<u8>, tail: Seq<u8>, depth: nat)
    requires
        s.len() <= usize::MAX,
        depth <= 64,
    ensures
        torrent::value_spec(string_bytes(s) + tail, depth) == Some(
            (ValueView::Str(s), string_bytes(s).len()),
        ),
        string_bytes(s).len() > 0,
        0x30 <= string_bytes(s)[0] <= 0x39,
{
    lemma_letters();
    let digits = ascii(text::dec(s.len()));
    lemma_digits(s.len() as int);
    assert(text::signed_dec(s.len() as int) == text::dec(s.len()));
    let bytes = string_bytes(s) + tail;
    assert(bytes =~= digits + seq![0x3au8] + (s + tail));
    assert(0x30 <= digits[0] <= 0x39);
    lemma_found_behind(digits, 0x3a, s + tail);
    assert(bytes.subrange(0, digits.len() as int) =~= digits);
    numbers::a_whole_number_written_is_read_back(s.len() as int, 0, usize::MAX as int);
    let from = digits.len() as int + 1;
    assert(bytes.subrange(from, from + s.len()) =~= s);
    assert(bytes[0] == digits[0]);
}

proof fn lemma_int_read(i: i64, tail: Seq<u8>, depth: nat)
    requires
        depth <= 64,
    ensures
        torrent::value_spec(value_bytes(Written::Int(i)) + tail, depth) == Some(
            (ValueView::Int(i), value_bytes(Written::Int(i)).len()),
        ),
{
    lemma_letters();
    let digits = ascii(text::signed_dec(i as int));
    lemma_digits(i as int);
    let bytes = value_bytes(Written::Int(i)) + tail;
    let front = seq![0x69u8] + digits;
    assert(bytes =~= front + seq![0x65u8] + tail);
    assert forall|k: int| 0 <= k < front.len() implies front[k] != 0x65 by {
        if k > 0 {
            assert(front[k] == digits[k - 1]);
        }
    }
    lemma_found_behind(front, 0x65, tail);
    assert(bytes.subrange(1, front.len() as int) =~= digits);
    numbers::a_whole_number_written_is_read_back(i as int, i64::MIN as int, i64::MAX as int);
    assert(bytes[0] == 0x69);
}

/// A value that is written is read back, whatever stands behind it.
pub proof fn a_value_written_is_read_back(w: Written, tail: Seq<u8>, depth: nat)
    requires
        fits(w, depth),
    ensures
        torrent::value_spec(value_bytes(w) + tail, depth) == Some((said(w), value_bytes(w).len())),
        value_bytes(w).len() > 0,
        value_bytes(w)[0] != 0x65,
    decreases w, 2nat,
{
    lemma_letters();
    let bytes = value_bytes(w) + tail;
    match w {
        Written::Int(i) => {
            lemma_int_read(i, tail, depth);
        },
        Written::Str(s) => {
            lemma_string_read(s, tail, depth);
        },
        Written::List(items) => {
            let behind = seq![0x65u8] + tail;
            assert(bytes =~= seq![0x6cu8] + items_bytes(items) + behind);
            assert(bytes.skip(1) =~= items_bytes(items) + behind);
            lemma_items_read(items, bytes, tail, 1, depth + 1, Seq::empty());
            assert(Seq::<ValueView>::empty() + said_items(items) =~= said_items(items));
        },
        Written::Dict(pairs) => {
            let behind = seq![0x65u8] + tail;
            assert(bytes =~= seq![0x64u8] + pairs_bytes(pairs) + behind);
            assert(bytes.skip(1) =~= pairs_bytes(pairs) + behind);
            lemma_pairs_read(pairs, bytes, tail, 1, depth + 1, Map::empty());
        },
    }
}

proof fn lemma_items_read(
    items: Seq<Written>,
    bytes: Seq<u8>,
    tail: Seq<u8>,
    offset: nat,
    depth: nat,
    before: Seq<ValueView>,
)
    requires
        items_fit(items, depth),
        offset <= bytes.len(),
        bytes.skip(offset as int) == items_bytes(items) + (seq![0x65u8] + tail),
    ensures
        torrent::items_from(bytes, offset, depth, before) == Some(
            (before + said_items(items), offset + items_bytes(items).len() + 1),
        ),
    decreases items, 1nat,
{
    let rest = bytes.skip(offset as int);
    assert(rest.len() > 0);
    assert(rest[0] == bytes[offset as int]);
    if items.len() == 0 {
        assert(rest =~= seq![0x65u8] + tail);
        assert(before + said_items(items) =~= before);
    } else {
        let first = items[0];
        let others = items.subrange(1, items.len() as int);
        let behind = items_bytes(others) + (seq![0x65u8] + tail);
        assert(rest =~= value_bytes(first) + behind);
        a_value_written_is_read_back(first, behind, depth);
        let n = value_bytes(first).len();
        assert(rest[0] == value_bytes(first)[0]);
        assert(rest.skip(n as int) =~= behind);
        assert(bytes.skip((offset + n) as int) =~= rest.skip(n as int));
        lemma_items_read(others, bytes, tail, offset + n, depth, before.push(said(first)));
        assert(before.push(said(first)) + said_items(others) =~= before + said_items(items));
    }
}

/// The first of some keys and values is read where they start, and the
/// others behind it.
proof fn lemma_pair_read(
    pairs: Seq<(Seq<u8>, Written)>,
    bytes: Seq<u8>,
    behind: Seq<u8>,
    offset: nat,
    depth: nat,
)
    requires
        pairs.len() > 0,
        pairs[0].0.len() <= usize::MAX,
        fits(pairs[0].1, depth),
        offset <= bytes.len(),
        bytes.skip(offset as int) == pairs_bytes(pairs) + behind,
    ensures
        ({
            let k = string_bytes(pairs[0].0).len();
            let n = value_bytes(pairs[0].1).len();
            &&& 0 < k && 0 < n
            &&& offset + k + n <= bytes.len()
            &&& bytes[offset as int] != 0x65
            &&& torrent::value_spec(bytes.skip(offset as int), depth) == Some(
                (ValueView::Str(pairs[0].0), k),
            )
            &&& torrent::value_spec(bytes.skip((offset + k) as int), depth) == Some(
                (said(pairs[0].1), n),
            )
            &&& bytes.subrange((offset + k) as int, (offset + k + n) as int) == value_bytes(
                pairs[0].1,
            )
            &&& bytes.skip((offset + k + n) as int) == pairs_bytes(
                pairs.subrange(1, pairs.len() as int),
            ) + behind
        }),
    decreases pairs, 0nat,
{
    let rest = bytes.skip(offset as int);
    let key = pairs[0].0;
    let first = pairs[0].1;
    let others = pairs.subrange(1, pairs.len() as int);
    let more = pairs_bytes(others) + behind;
    let k = string_bytes(key).len();
    let n = value_bytes(first).len();
    assert(rest =~= string_bytes(key) + (value_bytes(first) + more));
    lemma_string_read(key, value_bytes(first) + more, depth);
    assert(rest[0] == string_bytes(key)[0]);
    assert(rest[0] == bytes[offset as int]);
    assert(rest.skip(k as int) =~= value_bytes(first) + more);
    assert(bytes.skip((offset + k) as int) =~= rest.skip(k as int));
    a_value_written_is_read_back(first, more, depth);
    assert(rest.skip((k + n) as int) =~= more);
    assert(bytes.skip((offset + k + n) as int) =~= rest.skip((k + n) as int));
    assert(rest.subrange(k as int, (k + n) as int) =~= value_bytes(first));
    assert(bytes.subrange((offset + k) as int, (offset + k + n) as int) =~= rest.subrange(
        k as int,
        (k + n) as int,
    ));
}

proof fn lemma_pairs_read(
    pairs: Seq<(Seq<u8>, Written)>,
    bytes: Seq<u8>,
    tail: Seq<u8>,
    offset: nat,
    depth: nat,
    over: Map<Seq<u8>, ValueView>,
)
    requires
        pairs_fit(pairs, depth),
        offset <= bytes.len(),
        bytes.skip(offset as int) == pairs_bytes(pairs) + (seq![0x65u8] + tail),
    ensures
        torrent::pairs_from(bytes, offset, depth, over) == Some(
            (said_pairs(pairs, over), offset + pairs_bytes(pairs).len() + 1),
        ),
    decreases pairs, 1nat,
{
    let rest = bytes.skip(offset as int);
    assert(rest.len() > 0);
    assert(rest[0] == bytes[offset as int]);
    if pairs.len() == 0 {
        assert(rest =~= seq![0x65u8] + tail);
    } else {
        let others = pairs.subrange(1, pairs.len() as int);
        lemma_pair_read(pairs, bytes, seq![0x65u8] + tail, offset, depth);
        assert(fits(pairs[0].1, depth));
        let k = string_bytes(pairs[0].0).len();
        let n = value_bytes(pairs[0].1).len();
        lemma_pairs_read(
            others,
            bytes,
            tail,
            offset + k + n,
            depth,
            over.insert(pairs[0].0, said(pairs[0].1)),
        );
    }
}

// ---------------------------------------------------------------------
// Files

/// The texts among some values, in order.
pub open spec fn texts_among(items: Seq<ValueView>) -> Seq<Seq<char>> {
    items.filter_map(
        |v: ValueView|
            match v {
                ValueView::Str(b) => if vstd::utf8::valid_utf8(b) {
                    Some(vstd::utf8::decode_utf8(b))
                } else {
                    None
                },
                _ => None,
            },
    )
}

proof fn lemma_texts(items: Seq<ValueView>)
    ensures
        torrent::texts_of(items) == texts_among(items),
    decreases items.len(),
{
    if items.len() > 0 {
        lemma_texts(items.drop_last());
        if let ValueView::Str(b) = items.last() {
            if vstd::utf8::valid_utf8(b) {
                assert(texts_among(items.drop_last()).push(vstd::utf8::decode_utf8(b))
                    =~= texts_among(items.drop_last()) + seq![vstd::utf8::decode_utf8(b)]);
            }
        }
    }
}

proof fn lemma_joined(parts: Seq<Seq<char>>)
    ensures
        torrent::join_slash(parts) == text::join_spec(parts, seq!['/']),
    decreases parts.len(),
{
    reveal_strlit("/");
    assert("/"@ =~= seq!['/']);
    if parts.len() > 1 {
        lemma_joined(parts.drop_last());
    }
}

/// The files of two `files` lists, one behind the other, are those of the
/// first and then those of the second: what an entry is does not depend on
/// the others, and none is left out for another.
pub proof fn lists_behind_one_another_keep_their_files(a: Seq<ValueView>, b: Seq<ValueView>)
    ensures
        torrent::files_spec(a + b) == torrent::files_spec(a) + torrent::files_spec(b),
    decreases b.len(),
{
    if b.len() == 0 {
        assert(a + b =~= a);
        assert(torrent::files_spec(a) + torrent::files_spec(b) =~= torrent::files_spec(a));
    } else {
        assert((a + b).drop_last() =~= a + b.drop_last());
        lists_behind_one_another_keep_their_files(a, b.drop_last());
        assert(torrent::files_spec(a + b) =~= torrent::files_spec(a) + torrent::files_spec(b));
    }
}

/// An entry of a `files` list that is a dictionary with a `path` list is one
/// file where a text stands in the list, however many do: its path is the
/// texts with a `/` between each two, and its length what `length` says, or
/// zero. Any other entry is no file.
pub proof fn an_entry_is_one_file(v: ValueView)
    ensures
        ({
            let path = seq![0x70u8, 0x61, 0x74, 0x68];
            let length = seq![0x6cu8, 0x65, 0x6e, 0x67, 0x74, 0x68];
            let parts = match v {
                ValueView::Dict(d) => if d.contains_key(path) {
                    match d[path] {
                        ValueView::List(items) => texts_among(items),
                        _ => Seq::empty(),
                    }
                } else {
                    Seq::empty()
                },
                _ => Seq::empty(),
            };
            let files = torrent::files_spec(seq![v]);
            &&& parts.len() == 0 ==> files.len() == 0
            &&& parts.len() > 0 ==> {
                &&& files.len() == 1
                &&& files[0].path == text::join_spec(parts, seq!['/'])
                &&& v->Dict_0.contains_key(length) && v->Dict_0[length] is Int
                    ==> files[0].length == v->Dict_0[length]->Int_0 as u64
                &&& !v->Dict_0.contains_key(length) || !(v->Dict_0[length] is Int)
                    ==> files[0].length == 0
            }
        }),
{
    let path = seq![0x70u8, 0x61, 0x74, 0x68];
    let length = seq![0x6cu8, 0x65, 0x6e, 0x67, 0x74, 0x68];
    assert(path =~= torrent::key_path());
    assert(length =~= torrent::key_length());
    assert(seq![v].drop_last() =~= Seq::empty());
    assert(torrent::files_spec(Seq::empty()) =~= Seq::empty());
    if let ValueView::Dict(d) = v {
        if d.contains_key(path) {
            if let ValueView::List(items) = d[path] {
                lemma_texts(items);
                lemma_joined(texts_among(items));
            }
        }
    }
}

/// Where every entry of a `files` list is a dictionary with a `path` list of
/// one text or more and nothing else, the torrent has as many files as the
/// list has entries, in the order of the list: each with its texts, a `/`
/// between each two, as its path, so that a path of one part is that part,
/// and its `length`.
pub proof fn every_entry_of_a_files_list_is_a_file(
    items: Seq<ValueView>,
    paths: Seq<Seq<Seq<char>>>,
    lengths: Seq<i64>,
)
    requires
        items.len() == paths.len() == lengths.len(),
        forall|k: int|
            0 <= k < items.len() ==> {
                let path = seq![0x70u8, 0x61, 0x74, 0x68];
                let length = seq![0x6cu8, 0x65, 0x6e, 0x67, 0x74, 0x68];
                &&& (#[trigger] items[k]) is Dict
                &&& items[k]->Dict_0.contains_key(path)
                &&& items[k]->Dict_0[path] is List
                &&& items[k]->Dict_0[path]->List_0.len() == paths[k].len() > 0
                &&& forall|i: int|
                    0 <= i < paths[k].len() ==> #[trigger] items[k]->Dict_0[path]->List_0[i]
                        == ValueView::Str(vstd::utf8::encode_utf8(paths[k][i]))
                &&& items[k]->Dict_0.contains_key(length)
                &&& items[k]->Dict_0[length] == ValueView::Int(lengths[k])
            },
    ensures
        torrent::files_spec(items).len() == items.len(),
        forall|k: int|
            0 <= k < items.len() ==> {
                &&& (#[trigger] torrent::files_spec(items)[k]).path == text::join_spec(
                    paths[k],
                    seq!['/'],
                )
                &&& paths[k].len() == 1 ==> torrent::files_spec(items)[k].path == paths[k][0]
                &&& torrent::files_spec(items)[k].length == lengths[k] as u64
            },
    decreases items.len(),
{
    if items.len() > 0 {
        let front = items.drop_last();
        let last = items.last();
        let n = items.len() - 1;
        every_entry_of_a_files_list_is_a_file(front, paths.drop_last(), lengths.drop_last());
        lists_behind_one_another_keep_their_files(front, seq![last]);
        assert(front + seq![last] =~= items);
        assert(items[n] == last);
        an_entry_is_one_file(last);
        let path = seq![0x70u8, 0x61, 0x74, 0x68];
        lemma_all_texts(last->Dict_0[path]->List_0, paths[n]);
        assert forall|k: int| 0 <= k < items.len() implies {
            &&& (#[trigger] torrent::files_spec(items)[k]).path == text::join_spec(
                paths[k],
                seq!['/'],
            )
            &&& paths[k].len() == 1 ==> torrent::files_spec(items)[k].path == paths[k][0]
            &&& torrent::files_spec(items)[k].length == lengths[k] as u64
        } by {
            if k < n {
                assert(torrent::files_spec(items)[k] == torrent::files_spec(front)[k]);
                assert(paths.drop_last()[k] == paths[k]);
            }
        }
    }
}

proof fn lemma_all_texts(items: Seq<ValueView>, texts: Seq<Seq<char>>)
    requires
        items.len() == texts.len(),
        forall|i: int|
            0 <= i < items.len() ==> #[trigger] items[i] == ValueView::Str(
                vstd::utf8::encode_utf8(texts[i]),
            ),
    ensures
        texts_among(items) == texts,
    decreases items.len(),
{
    if items.len() == 0 {
        assert(texts_among(items) =~= texts);
    } else {
        let front = items.drop_last();
        lemma_all_texts(front, texts.drop_last());
        let t = texts.last();
        assert(items.last() == ValueView::Str(vstd::utf8::encode_utf8(t)));
        vstd::utf8::encode_utf8_valid_utf8(t);
        vstd::utf8::encode_utf8_decode_utf8(t);
        assert(texts.drop_last() + seq![t] =~= texts);
    }
}

// ---------------------------------------------------------------------
// Torrents

/// What keys and values say of a key: what they said of it before, where it
/// is none of theirs.
proof fn lemma_said_of_another(
    pairs: Seq<(Seq<u8>, Written)>,
    over: Map<Seq<u8>, ValueView>,
    key: Seq<u8>,
)
    requires
        forall|i: int| 0 <= i < pairs.len() ==> (#[trigger] pairs[i]).0 != key,
    ensures
        said_pairs(pairs, over).contains_key(key) == over.contains_key(key),
        over.contains_key(key) ==> said_pairs(pairs, over)[key] == over[key],
    decreases pairs,
{
    if pairs.len() > 0 {
        let others = pairs.subrange(1, pairs.len() as int);
        assert(pairs[0].0 != key);
        assert forall|i: int| 0 <= i < others.len() implies (#[trigger] others[i]).0 != key by {
            assert(pairs[i + 1].0 != key);
        }
        lemma_said_of_another(others, over.insert(pairs[0].0, said(pairs[0].1)), key);
    }
}

/// The last value that is written under a key is what is said of it.
pub proof fn the_last_value_of_a_key_counts(
    pairs: Seq<(Seq<u8>, Written)>,
    over: Map<Seq<u8>, ValueView>,
    at: int,
)
    requires
        0 <= at < pairs.len(),
        forall|i: int| at < i < pairs.len() ==> (#[trigger] pairs[i]).0 != pairs[at].0,
    ensures
        said_pairs(pairs, over).contains_key(pairs[at].0),
        said_pairs(pairs, over)[pairs[at].0] == said(pairs[at].1),
    decreases pairs,
{
    let others = pairs.subrange(1, pairs.len() as int);
    let next = over.insert(pairs[0].0, said(pairs[0].1));
    if at == 0 {
        assert forall|i: int| 0 <= i < others.len() implies (#[trigger] others[i]).0
            != pairs[0].0 by {
            assert(pairs[i + 1].0 != pairs[at].0);
        }
        lemma_said_of_another(others, next, pairs[0].0);
    } else {
        assert(others[at - 1] == pairs[at]);
        assert forall|i: int| at - 1 < i < others.len() implies (#[trigger] others[i]).0
            != others[at - 1].0 by {
            assert(pairs[i + 1].0 != pairs[at].0);
        }
        the_last_value_of_a_key_counts(others, next, at - 1);
    }
}

proof fn lemma_place_read(
    pairs: Seq<(Seq<u8>, Written)>,
    bytes: Seq<u8>,
    tail: Seq<u8>,
    offset: nat,
    key: Seq<u8>,
    at: int,
    found: Option<(nat, nat)>,
)
    requires
        pairs_fit(pairs, 1),
        offset <= bytes.len(),
        bytes.skip(offset as int) == pairs_bytes(pairs) + (seq![0x65u8] + tail),
        -1 <= at < pairs.len(),
        at >= 0 ==> pairs[at].0 == key,
        forall|i: int| at < i < pairs.len() ==> (#[trigger] pairs[i]).0 != key,
    ensures
        at < 0 ==> torrent::place_from(bytes, offset, 1, key, found) == found,
        at >= 0 ==> (torrent::place_from(bytes, offset, 1, key, found) matches Some((from, to))
            && from <= to <= bytes.len() && bytes.subrange(from as int, to as int) == value_bytes(
            pairs[at].1,
        )),
    decreases pairs,
{
    let rest = bytes.skip(offset as int);
    assert(rest.len() > 0);
    assert(rest[0] == bytes[offset as int]);
    if pairs.len() == 0 {
        assert(rest =~= seq![0x65u8] + tail);
    } else {
        let name = pairs[0].0;
        let others = pairs.subrange(1, pairs.len() as int);
        lemma_pair_read(pairs, bytes, seq![0x65u8] + tail, offset, 1);
        let k = string_bytes(name).len();
        let n = value_bytes(pairs[0].1).len();
        let next = if name == key {
            Some((offset + k, offset + k + n))
        } else {
            found
        };
        let left = if at >= 0 {
            at - 1
        } else {
            -1
        };
        assert forall|i: int| left < i < others.len() implies (#[trigger] others[i]).0 != key by {
            assert(pairs[i + 1].0 != key);
        }
        if at > 0 {
            assert(others[at - 1] == pairs[at]);
        }
        lemma_place_read(others, bytes, tail, offset + k + n, key, left, next);
        if at < 0 {
            assert(pairs[0].0 != key);
        }
    }
}

/// A torrent whose last `info` is a dictionary is named by the hash of that
/// dictionary as it is written, and holds what the dictionary says; whatever
/// else is written before it, between or behind.
pub proof fn a_torrent_written_is_read_back(
    pairs: Seq<(Seq<u8>, Written)>,
    at: int,
    info: Seq<(Seq<u8>, Written)>,
    tail: Seq<u8>,
)
    requires
        fits(Written::Dict(pairs), 0),
        0 <= at < pairs.len(),
        pairs[at] == (seq![0x69u8, 0x6e, 0x66, 0x6f], Written::Dict(info)),
        forall|i: int| at < i < pairs.len() ==> (#[trigger] pairs[i]).0 != pairs[at].0,
    ensures
        torrent::torrent_spec(value_bytes(Written::Dict(pairs)) + tail) == torrent::info_spec(
            said_pairs(info, Map::empty()),
            encoding::hex_text(sha1::digest_spec(value_bytes(Written::Dict(info)))),
        ),
{
    lemma_letters();
    let key = seq![0x69u8, 0x6e, 0x66, 0x6f];
    assert(key =~= torrent::key_info());
    let root = Written::Dict(pairs);
    let bytes = value_bytes(root) + tail;
    a_value_written_is_read_back(root, tail, 0);
    the_last_value_of_a_key_counts(pairs, Map::empty(), at);
    let behind = seq![0x65u8] + tail;
    assert(bytes =~= seq![0x64u8] + pairs_bytes(pairs) + behind);
    assert(bytes.skip(1) =~= pairs_bytes(pairs) + behind);
    lemma_place_read(pairs, bytes, tail, 1, key, at, None);
}

/// What an info dictionary with a `files` list says: the torrent holds the
/// files of the list, whatever length the dictionary itself gives.
pub proof fn a_torrent_of_many_files_holds_its_list(
    d: Map<Seq<u8>, ValueView>,
    hash: Seq<char>,
    items: Seq<ValueView>,
)
    requires
        d.contains_key(seq![0x66u8, 0x69, 0x6c, 0x65, 0x73]),
        d[seq![0x66u8, 0x69, 0x6c, 0x65, 0x73]] == ValueView::List(items),
    ensures
        torrent::info_spec(d, hash) matches Ok(t) ==> t.files == torrent::files_spec(items)
            && t.info_hash == hash,
{
    assert(seq![0x66u8, 0x69, 0x6c, 0x65, 0x73] =~= torrent::key_files());
}

/// A torrent without a `files` list holds one file of its name and length,
/// or none where it has no name.
pub proof fn a_torrent_of_one_file_holds_it(
    d: Map<Seq<u8>, ValueView>,
    hash: Seq<char>,
    name: Seq<char>,
    length: i64,
)
    requires
        !d.contains_key(seq![0x66u8, 0x69, 0x6c, 0x65, 0x73]),
        d.contains_key(seq![0x6cu8, 0x65, 0x6e, 0x67, 0x74, 0x68]),
        d[seq![0x6cu8, 0x65, 0x6e, 0x67, 0x74, 0x68]] == ValueView::Int(length),
        d.contains_key(seq![0x6eu8, 0x61, 0x6d, 0x65]),
        d[seq![0x6eu8, 0x61, 0x6d, 0x65]] == ValueView::Str(vstd::utf8::encode_utf8(name)),
    ensures
        torrent::info_spec(d, hash) matches Ok(t) && t.info_hash == hash && t.name == Some(name)
            && t.files == seq![TorrentFileView { path: name, length: length as u64 }],
{
    assert(seq![0x66u8, 0x69, 0x6c, 0x65, 0x73] =~= torrent::key_files());
    assert(seq![0x6cu8, 0x65, 0x6e, 0x67, 0x74, 0x68] =~= torrent::key_length());
    assert(seq![0x6eu8, 0x61, 0x6d, 0x65] =~= torrent::key_name());
    vstd::utf8::encode_utf8_valid_utf8(name);
    vstd::utf8::encode_utf8_decode_utf8(name);
}

/// A torrent is refused for its name exactly if the name is a string that is
/// no UTF-8; where there is no name, or it is no string, the torrent has
/// none.
pub proof fn a_name_is_text_or_refused(d: Map<Seq<u8>, ValueView>, hash: Seq<char>)
    ensures
        ({
            let key = seq![0x6eu8, 0x61, 0x6d, 0x65];
            &&& torrent::info_spec(d, hash) is Err <==> d.contains_key(key) && d[key] is Str
                && !vstd::utf8::valid_utf8(d[key]->Str_0)
            &&& torrent::info_spec(d, hash) matches Ok(t) ==> t.name == (if d.contains_key(key)
                && d[key] is Str {
                Some(vstd::utf8::decode_utf8(d[key]->Str_0))
            } else {
                None
            })
        }),
{
    assert(seq![0x6eu8, 0x61, 0x6d, 0x65] =~= torrent::key_name());
}

} // verus!
