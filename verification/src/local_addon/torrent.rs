//! `.torrent` files: bencode, the info hash, and the files a torrent holds.
//!
//! Everything here is read from an untrusted file: a malformed one is an
//! error, never a panic, and nesting is bounded.
use super::sha1;
use super::sha1::sha1_digest;
use crate::encoding;
use crate::encoding::hex_encode;
use crate::numbers;
use crate::numbers::{parse_i64, parse_unsigned};
use crate::text;
use crate::text::{chars_of, from_latin1, from_utf8};
use vstd::prelude::*;
use vstd::slice::{slice_subrange, slice_to_vec};

verus! {

/// How deep lists and dictionaries nest. Without this, a small crafted file
/// could drive the parser's recursion deep enough to overflow the stack.
pub const MAX_BENCODE_DEPTH: usize = 64;

/// A bencoded value.
#[derive(Debug)]
pub enum BValue {
    Int(i64),
    Str(Vec<u8>),
    List(Vec<BValue>),
    Dict(Dict),
}

/// A dictionary: a value for each of some byte strings, no string twice.
#[derive(Debug)]
pub struct Dict {
    pub entries: Vec<(Vec<u8>, BValue)>,
}

/// What a bencoded value says.
pub enum ValueView {
    Int(i64),
    Str(Seq<u8>),
    List(Seq<ValueView>),
    Dict(Map<Seq<u8>, ValueView>),
}

/// What a value says.
pub open spec fn value_view(v: BValue) -> ValueView
    decreases v,
{
    match v {
        BValue::Int(i) => ValueView::Int(i),
        BValue::Str(s) => ValueView::Str(s@),
        BValue::List(l) => ValueView::List(list_view(l@)),
        BValue::Dict(d) => ValueView::Dict(entries_view(d.entries@)),
    }
}

/// What the values of a list say.
pub open spec fn list_view(l: Seq<BValue>) -> Seq<ValueView>
    decreases l,
{
    if l.len() == 0 {
        Seq::empty()
    } else {
        list_view(l.drop_last()).push(value_view(l.last()))
    }
}

/// What the entries of a dictionary say. The last one of a key counts.
pub open spec fn entries_view(entries: Seq<(Vec<u8>, BValue)>) -> Map<Seq<u8>, ValueView>
    decreases entries,
{
    if entries.len() == 0 {
        Map::empty()
    } else {
        entries_view(entries.drop_last()).insert(
            entries.last().0@,
            value_view(entries.last().1),
        )
    }
}

impl View for BValue {
    type V = ValueView;

    open spec fn view(&self) -> ValueView {
        value_view(*self)
    }
}

impl View for Dict {
    type V = Map<Seq<u8>, ValueView>;

    open spec fn view(&self) -> Map<Seq<u8>, ValueView> {
        entries_view(self.entries@)
    }
}

impl Clone for BValue {
    fn clone(&self) -> (r: Self)
        ensures
            r@ == self@,
        decreases self,
    {
        match self {
            BValue::Int(i) => BValue::Int(*i),
            BValue::Str(b) => BValue::Str(slice_to_vec(b.as_slice())),
            BValue::List(l) => {
                let mut out: Vec<BValue> = Vec::new();
                let mut i: usize = 0;
                while i < l.len()
                    invariant
                        i <= l@.len(),
                        *self == BValue::List(*l),
                        list_view(out@) == list_view(l@.take(i as int)),
                    decreases l@.len() - i,
                {
                    proof {
                        assert(decreases_to!(*self => self->List_0));
                        assert(decreases_to!(*l => l@));
                        assert(decreases_to!(l@ => l@[i as int]));
                    }
                    let v = l[i].clone();
                    let ghost before = out@;
                    let ghost added = v;
                    out.push(v);
                    proof {
                        assert(out@ =~= before.push(added));
                        assert(out@.drop_last() =~= before);
                        assert(l@.take(i + 1).drop_last() =~= l@.take(i as int));
                    }
                    i += 1;
                }
                proof {
                    assert(l@.take(l@.len() as int) =~= l@);
                }
                BValue::List(out)
            },
            BValue::Dict(d) => {
                let mut out: Vec<(Vec<u8>, BValue)> = Vec::new();
                let mut i: usize = 0;
                while i < d.entries.len()
                    invariant
                        i <= d.entries@.len(),
                        *self == BValue::Dict(*d),
                        entries_view(out@) == entries_view(d.entries@.take(i as int)),
                    decreases d.entries@.len() - i,
                {
                    proof {
                        assert(decreases_to!(*self => self->Dict_0));
                        assert(decreases_to!(*d => d.entries));
                        assert(decreases_to!(d.entries => d.entries@));
                        assert(decreases_to!(d.entries@ => d.entries@[i as int]));
                        assert(decreases_to!(d.entries@[i as int] => d.entries@[i as int].1));
                    }
                    let key = slice_to_vec(d.entries[i].0.as_slice());
                    let value = d.entries[i].1.clone();
                    let ghost before = out@;
                    let ghost added = (key, value);
                    out.push((key, value));
                    proof {
                        assert(out@ =~= before.push(added));
                        assert(out@.drop_last() =~= before);
                        assert(d.entries@.take(i + 1).drop_last() =~= d.entries@.take(i as int));
                    }
                    i += 1;
                }
                proof {
                    assert(d.entries@.take(d.entries@.len() as int) =~= d.entries@);
                }
                BValue::Dict(Dict { entries: out })
            },
        }
    }
}

impl Clone for Dict {
    fn clone(&self) -> (r: Self)
        ensures
            r@ == self@,
            self.well_formed() ==> r.well_formed(),
    {
        let mut out: Vec<(Vec<u8>, BValue)> = Vec::new();
        let mut i: usize = 0;
        while i < self.entries.len()
            invariant
                i <= self.entries@.len(),
                out@.len() == i,
                forall|j: int| 0 <= j < i ==> (#[trigger] out@[j]).0@ == self.entries@[j].0@,
                entries_view(out@) == entries_view(self.entries@.take(i as int)),
            decreases self.entries@.len() - i,
        {
            let key = slice_to_vec(self.entries[i].0.as_slice());
            let value = self.entries[i].1.clone();
            let ghost before = out@;
            out.push((key, value));
            proof {
                assert(out@.drop_last() =~= before);
                assert(self.entries@.take(i + 1).drop_last() =~= self.entries@.take(i as int));
            }
            i += 1;
        }
        proof {
            assert(self.entries@.take(self.entries@.len() as int) =~= self.entries@);
        }
        Dict { entries: out }
    }
}

proof fn lemma_entries_without(entries: Seq<(Vec<u8>, BValue)>, i: int)
    requires
        0 <= i < entries.len(),
    ensures
        entries_view(entries.remove(i)).remove(entries[i].0@) == entries_view(entries).remove(
            entries[i].0@,
        ),
    decreases entries.len(),
{
    let key = entries[i].0@;
    let rest = entries.drop_last();
    if i == entries.len() - 1 {
        assert(entries.remove(i) =~= rest);
        assert(entries_view(entries).remove(key) =~= entries_view(rest).remove(key));
    } else {
        lemma_entries_without(rest, i);
        assert(entries.remove(i).drop_last() =~= rest.remove(i));
        assert(entries.remove(i).last() == entries.last());
        let (k, v) = (entries.last().0@, value_view(entries.last().1));
        let m1 = entries_view(rest.remove(i));
        let m2 = entries_view(rest);
        if k == key {
            assert(m1.insert(k, v).remove(key) =~= m1.remove(key));
            assert(m2.insert(k, v).remove(key) =~= m2.remove(key));
        } else {
            assert(m1.insert(k, v).remove(key) =~= m1.remove(key).insert(k, v));
            assert(m2.insert(k, v).remove(key) =~= m2.remove(key).insert(k, v));
        }
    }
}

fn same_bytes(a: &[u8], b: &[u8]) -> (r: bool)
    ensures
        r == (a@ == b@),
{
    if a.len() != b.len() {
        return false;
    }
    let mut i: usize = 0;
    while i < a.len()
        invariant
            i <= a@.len(),
            a@.len() == b@.len(),
            forall|j: int| 0 <= j < i ==> a@[j] == b@[j],
        decreases a@.len() - i,
    {
        if a[i] != b[i] {
            return false;
        }
        i += 1;
    }
    proof {
        assert(a@ =~= b@);
    }
    true
}

proof fn lemma_entries_lookup(entries: Seq<(Vec<u8>, BValue)>, key: Seq<u8>, i: int)
    requires
        0 <= i <= entries.len(),
        forall|j: int| i <= j < entries.len() ==> (#[trigger] entries[j]).0@ != key,
    ensures
        entries_view(entries).contains_key(key) == entries_view(entries.take(i)).contains_key(key),
        entries_view(entries)[key] == entries_view(entries.take(i))[key],
    decreases entries.len(),
{
    if i == entries.len() {
        assert(entries.take(i) =~= entries);
    } else {
        let rest = entries.drop_last();
        assert(entries.last().0@ != key);
        lemma_entries_lookup(rest, key, i);
        assert(rest.take(i) =~= entries.take(i));
    }
}

impl Dict {
    /// No key stands in the dictionary twice.
    pub open spec fn well_formed(&self) -> bool {
        forall|i: int, j: int|
            0 <= i < j < self.entries@.len() ==> #[trigger] self.entries@[i].0@
                != #[trigger] self.entries@[j].0@
    }

    pub fn new() -> (d: Dict)
        ensures
            d@ == Map::<Seq<u8>, ValueView>::empty(),
            d.well_formed(),
    {
        Dict { entries: Vec::new() }
    }

    /// The value of a key, if the dictionary holds the key.
    pub fn get(&self, key: &[u8]) -> (r: Option<&BValue>)
        ensures
            match r {
                Some(v) => self@.contains_key(key@) && self@[key@] == v@,
                None => !self@.contains_key(key@),
            },
    {
        let mut i: usize = self.entries.len();
        while i > 0
            invariant
                i <= self.entries@.len(),
                forall|j: int|
                    i <= j < self.entries@.len() ==> (#[trigger] self.entries@[j]).0@ != key@,
            decreases i,
        {
            i -= 1;
            if same_bytes(self.entries[i].0.as_slice(), key) {
                proof {
                    lemma_entries_lookup(self.entries@, key@, i + 1);
                    assert(self.entries@.take(i + 1).last() == self.entries@[i as int]);
                }
                return Some(&self.entries[i].1);
            }
        }
        proof {
            lemma_entries_lookup(self.entries@, key@, 0);
            assert(self.entries@.take(0) =~= Seq::empty());
        }
        None
    }

    /// Put a value under a key, in place of one that was there.
    pub fn insert(&mut self, key: Vec<u8>, value: BValue)
        ensures
            final(self)@ == old(self)@.insert(key@, value@),
            old(self).well_formed() ==> final(self).well_formed(),
    {
        let mut i: usize = 0;
        while i < self.entries.len()
            invariant
                i <= self.entries@.len(),
                *self == *old(self),
                forall|j: int| 0 <= j < i ==> (#[trigger] self.entries@[j]).0@ != key@,
            decreases self.entries@.len() - i,
        {
            if same_bytes(self.entries[i].0.as_slice(), key.as_slice()) {
                proof {
                    lemma_entries_without(self.entries@, i as int);
                }
                let _ = self.entries.remove(i);
                let ghost kept = self.entries@;
                proof {
                    assert(kept =~= old(self).entries@.remove(i as int));
                }
                self.entries.push((key, value));
                proof {
                    assert(self.entries@.drop_last() =~= kept);
                    let m1 = entries_view(kept);
                    let m2 = old(self)@;
                    assert(m1.insert(key@, value@) =~= m1.remove(key@).insert(key@, value@));
                    assert(m2.insert(key@, value@) =~= m2.remove(key@).insert(key@, value@));
                    if old(self).well_formed() {
                        let old_entries = old(self).entries@;
                        assert forall|a: int, b: int|
                            0 <= a < b < self.entries@.len() implies #[trigger] self.entries@[a].0@
                            != #[trigger] self.entries@[b].0@ by {
                            let oa = if a < i {
                                a
                            } else {
                                a + 1
                            };
                            assert(self.entries@[a] == old_entries[oa]);
                            if b == self.entries@.len() - 1 {
                                assert(old_entries[oa].0@ != old_entries[i as int].0@);
                            } else {
                                let ob = if b < i {
                                    b
                                } else {
                                    b + 1
                                };
                                assert(self.entries@[b] == old_entries[ob]);
                                assert(old_entries[oa].0@ != old_entries[ob].0@);
                            }
                        }
                    }
                }
                return ;
            }
            i += 1;
        }
        let ghost before = self.entries@;
        self.entries.push((key, value));
        proof {
            assert(self.entries@.drop_last() =~= before);
        }
    }
}

impl BValue {
    /// The string as text, where the value is one and its bytes are UTF-8.
    pub fn as_str(&self) -> (r: Option<&str>)
        ensures
            match r {
                Some(s) => text_of(self@) == Some(s@),
                None => text_of(self@) is None,
            },
    {
        match self {
            BValue::Str(bytes) => from_utf8(bytes.as_slice()),
            _ => None,
        }
    }

    /// The bytes, where the value is a string.
    pub fn as_bytes(&self) -> (r: Option<&[u8]>)
        ensures
            match r {
                Some(b) => self@ == ValueView::Str(b@),
                None => !(self@ is Str),
            },
    {
        match self {
            BValue::Str(bytes) => Some(bytes.as_slice()),
            _ => None,
        }
    }

    /// The dictionary, where the value is one.
    pub fn get_dict(&self) -> (r: Option<&Dict>)
        ensures
            match r {
                Some(d) => self@ == ValueView::Dict(d@),
                None => !(self@ is Dict),
            },
    {
        match self {
            BValue::Dict(d) => Some(d),
            _ => None,
        }
    }

    /// The list, where the value is one.
    pub fn get_list(&self) -> (r: Option<&Vec<BValue>>)
        ensures
            match r {
                Some(l) => self@ == ValueView::List(list_view(l@)),
                None => !(self@ is List),
            },
    {
        match self {
            BValue::List(l) => Some(l),
            _ => None,
        }
    }

    /// The number, where the value is one.
    pub fn get_int(&self) -> (r: Option<i64>)
        ensures
            match r {
                Some(i) => self@ == ValueView::Int(i),
                None => !(self@ is Int),
            },
    {
        match self {
            BValue::Int(i) => Some(*i),
            _ => None,
        }
    }
}

/// The text of a value that is a string of UTF-8.
pub open spec fn text_of(v: ValueView) -> Option<Seq<char>> {
    match v {
        ValueView::Str(bytes) => if vstd::utf8::valid_utf8(bytes) {
            Some(vstd::utf8::decode_utf8(bytes))
        } else {
            None
        },
        _ => None,
    }
}

// ---------------------------------------------------------------------
// Bencode

/// Where a byte first stands.
pub open spec fn find_byte(bytes: Seq<u8>, b: u8) -> Option<int>
    decreases bytes.len(),
{
    if bytes.len() == 0 {
        None
    } else if bytes[0] == b {
        Some(0)
    } else {
        match find_byte(bytes.skip(1), b) {
            Some(i) => Some(i + 1),
            None => None,
        }
    }
}

fn position(bytes: &[u8], b: u8) -> (r: Option<usize>)
    ensures
        match r {
            Some(i) => find_byte(bytes@, b) == Some(i as int) && i < bytes@.len() && bytes@[i as int]
                == b,
            None => find_byte(bytes@, b) is None,
        },
{
    let mut i: usize = 0;
    proof {
        assert(bytes@.skip(0) =~= bytes@);
    }
    while i < bytes.len()
        invariant
            i <= bytes@.len(),
            find_byte(bytes@, b) == (match find_byte(bytes@.skip(i as int), b) {
                Some(k) => Some(k + i),
                None => None,
            }),
        decreases bytes@.len() - i,
    {
        proof {
            assert(bytes@.skip(i as int)[0] == bytes@[i as int]);
            assert(bytes@.skip(i as int).skip(1) =~= bytes@.skip(i + 1));
        }
        if bytes[i] == b {
            return Some(i);
        }
        i += 1;
    }
    None
}

/// `i`, a number and `e`: the number, and how many bytes it took.
pub open spec fn int_spec(bytes: Seq<u8>) -> Option<(ValueView, nat)> {
    match find_byte(bytes, 0x65) {
        None => None,
        Some(end) => match numbers::signed(
            text::latin1(bytes.subrange(1, end)),
            i64::MIN as int,
            i64::MAX as int,
        ) {
            None => None,
            Some(i) => Some((ValueView::Int(i as i64), (end + 1) as nat)),
        },
    }
}

/// A length, `:` and so many bytes: the bytes, and how many it took.
pub open spec fn string_spec(bytes: Seq<u8>) -> Option<(ValueView, nat)> {
    match find_byte(bytes, 0x3a) {
        None => None,
        Some(colon) => match numbers::unsigned(
            text::latin1(bytes.subrange(0, colon)),
            usize::MAX as nat,
        ) {
            None => None,
            Some(len) => if colon + 1 + len > bytes.len() {
                None
            } else {
                Some(
                    (
                        ValueView::Str(bytes.subrange(colon + 1, colon + 1 + len)),
                        (colon + 1 + len) as nat,
                    ),
                )
            },
        },
    }
}

/// The value that `bytes` start with, and how many of them it took. Inside
/// `depth` lists and dictionaries.
pub open spec fn value_spec(bytes: Seq<u8>, depth: nat) -> Option<(ValueView, nat)>
    decreases MAX_BENCODE_DEPTH + 1 - depth, 0nat,
{
    if depth > MAX_BENCODE_DEPTH || bytes.len() == 0 {
        None
    } else if bytes[0] == 0x69 {
        int_spec(bytes)
    } else if bytes[0] == 0x6c {
        match items_from(bytes, 1, depth + 1, Seq::empty()) {
            None => None,
            Some((items, end)) => Some((ValueView::List(items), end)),
        }
    } else if bytes[0] == 0x64 {
        match pairs_from(bytes, 1, depth + 1, Map::empty()) {
            None => None,
            Some((pairs, end)) => Some((ValueView::Dict(pairs), end)),
        }
    } else if 0x30 <= bytes[0] <= 0x39 {
        string_spec(bytes)
    } else {
        None
    }
}

/// The values from `offset` up to an `e`, behind `items`, and where that
/// ends.
pub open spec fn items_from(
    bytes: Seq<u8>,
    offset: nat,
    depth: nat,
    items: Seq<ValueView>,
) -> Option<(Seq<ValueView>, nat)>
    decreases MAX_BENCODE_DEPTH + 1 - depth, 1 + (if offset < bytes.len() { bytes.len() - offset } else { 0 }),
{
    if offset >= bytes.len() {
        None
    } else if bytes[offset as int] == 0x65 {
        Some((items, offset + 1))
    } else if depth > MAX_BENCODE_DEPTH {
        None
    } else {
        match value_spec(bytes.skip(offset as int), depth) {
            None => None,
            Some((v, n)) => if n == 0 {
                None
            } else {
                items_from(bytes, offset + n, depth, items.push(v))
            },
        }
    }
}

/// The keys and values from `offset` up to an `e`, over `pairs`, and where
/// that ends. A key is a string; the last value of a key counts.
pub open spec fn pairs_from(
    bytes: Seq<u8>,
    offset: nat,
    depth: nat,
    pairs: Map<Seq<u8>, ValueView>,
) -> Option<(Map<Seq<u8>, ValueView>, nat)>
    decreases MAX_BENCODE_DEPTH + 1 - depth, 1 + (if offset < bytes.len() { bytes.len() - offset } else { 0 }),
{
    if offset >= bytes.len() {
        None
    } else if bytes[offset as int] == 0x65 {
        Some((pairs, offset + 1))
    } else if depth > MAX_BENCODE_DEPTH {
        None
    } else {
        match value_spec(bytes.skip(offset as int), depth) {
            Some((ValueView::Str(key), k)) => if offset + k > bytes.len() {
                None
            } else {
                match value_spec(bytes.skip((offset + k) as int), depth) {
                    None => None,
                    Some((v, n)) => if k + n == 0 {
                        None
                    } else {
                        pairs_from(bytes, offset + k + n, depth, pairs.insert(key, v))
                    },
                }
            },
            _ => None,
        }
    }
}

fn parse_int(bytes: &[u8]) -> (r: Result<(BValue, usize), ()>)
    requires
        bytes@.len() > 0,
        bytes@[0] == 0x69,
    ensures
        match r {
            Ok((v, n)) => int_spec(bytes@) == Some((v@, n as nat)) && 0 < n <= bytes@.len(),
            Err(()) => int_spec(bytes@) is None,
        },
{
    match position(bytes, 0x65) {
        None => Err(()),
        Some(end) => {
            let digits = from_latin1(slice_subrange(bytes, 1, end));
            proof {
                assert(end < bytes.len());
            }
            match parse_i64(chars_of(digits.as_str()).as_slice()) {
                None => Err(()),
                Some(i) => Ok((BValue::Int(i), end + 1)),
            }
        },
    }
}

fn parse_string(bytes: &[u8]) -> (r: Result<(BValue, usize), ()>)
    ensures
        match r {
            Ok((v, n)) => string_spec(bytes@) == Some((v@, n as nat)) && 0 < n <= bytes@.len(),
            Err(()) => string_spec(bytes@) is None,
        },
{
    match position(bytes, 0x3a) {
        None => Err(()),
        Some(colon) => {
            let digits = from_latin1(slice_subrange(bytes, 0, colon));
            match parse_unsigned(chars_of(digits.as_str()).as_slice(), usize::MAX as u64) {
                None => Err(()),
                Some(len) => {
                    let room: usize = bytes.len() - colon - 1;
                    if len > room as u64 {
                        return Err(());
                    }
                    let start: usize = colon + 1;
                    let end: usize = start + len as usize;
                    Ok((BValue::Str(slice_to_vec(slice_subrange(bytes, start, end))), end))
                },
            }
        },
    }
}

/// The value that `bytes` start with, and how many of them it took.
pub fn parse_bencode(bytes: &[u8]) -> (r: Result<(BValue, usize), ()>)
    ensures
        match r {
            Ok((v, n)) => value_spec(bytes@, 0) == Some((v@, n as nat)) && 0 < n <= bytes@.len(),
            Err(()) => value_spec(bytes@, 0) is None,
        },
{
    parse_bencode_depth(bytes, 0)
}

/// The value that `bytes` start with, inside `depth` lists and dictionaries.
pub fn parse_bencode_depth(bytes: &[u8], depth: usize) -> (r: Result<(BValue, usize), ()>)
    requires
        depth <= MAX_BENCODE_DEPTH + 1,
    ensures
        match r {
            Ok((v, n)) => value_spec(bytes@, depth as nat) == Some((v@, n as nat)) && 0 < n
                <= bytes@.len(),
            Err(()) => value_spec(bytes@, depth as nat) is None,
        },
    decreases MAX_BENCODE_DEPTH + 1 - depth, 0nat,
{
    if depth > MAX_BENCODE_DEPTH || bytes.len() == 0 {
        return Err(());
    }
    let first: u8 = bytes[0];
    if first == 0x69 {
        parse_int(bytes)
    } else if first == 0x6c {
        parse_items(bytes, depth + 1)
    } else if first == 0x64 {
        parse_pairs(bytes, depth + 1)
    } else if 0x30 <= first && first <= 0x39 {
        parse_string(bytes)
    } else {
        Err(())
    }
}

fn parse_items(bytes: &[u8], depth: usize) -> (r: Result<(BValue, usize), ()>)
    requires
        depth <= MAX_BENCODE_DEPTH + 1,
        bytes@.len() > 0,
    ensures
        match r {
            Ok((v, n)) => v@ is List && items_from(bytes@, 1, depth as nat, Seq::empty()) == Some(
                (v@->List_0, n as nat),
            ) && 0 < n <= bytes@.len(),
            Err(()) => items_from(bytes@, 1, depth as nat, Seq::empty()) is None,
        },
    decreases MAX_BENCODE_DEPTH + 1 - depth, 1nat,
{
    let mut list: Vec<BValue> = Vec::new();
    let mut offset: usize = 1;
    while offset < bytes.len() && bytes[offset] != 0x65
        invariant
            0 < offset <= bytes@.len(),
            depth <= MAX_BENCODE_DEPTH + 1,
            items_from(bytes@, 1, depth as nat, Seq::empty()) == items_from(
                bytes@,
                offset as nat,
                depth as nat,
                list_view(list@),
            ),
        decreases bytes@.len() - offset,
    {
        if depth > MAX_BENCODE_DEPTH {
            return Err(());
        }
        proof {
            assert(bytes@.subrange(offset as int, bytes@.len() as int) =~= bytes@.skip(
                offset as int,
            ));
        }
        match parse_bencode_depth(slice_subrange(bytes, offset, bytes.len()), depth) {
            Err(()) => {
                return Err(());
            },
            Ok((v, n)) => {
                let ghost before = list@;
                list.push(v);
                proof {
                    assert(list@.drop_last() =~= before);
                }
                offset += n;
            },
        }
    }
    if offset >= bytes.len() {
        return Err(());
    }
    Ok((BValue::List(list), offset + 1))
}

fn parse_pairs(bytes: &[u8], depth: usize) -> (r: Result<(BValue, usize), ()>)
    requires
        depth <= MAX_BENCODE_DEPTH + 1,
        bytes@.len() > 0,
    ensures
        match r {
            Ok((v, n)) => v@ is Dict && pairs_from(bytes@, 1, depth as nat, Map::empty()) == Some(
                (v@->Dict_0, n as nat),
            ) && 0 < n <= bytes@.len(),
            Err(()) => pairs_from(bytes@, 1, depth as nat, Map::empty()) is None,
        },
    decreases MAX_BENCODE_DEPTH + 1 - depth, 1nat,
{
    let mut dict = Dict::new();
    let mut offset: usize = 1;
    while offset < bytes.len() && bytes[offset] != 0x65
        invariant
            0 < offset <= bytes@.len(),
            depth <= MAX_BENCODE_DEPTH + 1,
            dict.well_formed(),
            pairs_from(bytes@, 1, depth as nat, Map::empty()) == pairs_from(
                bytes@,
                offset as nat,
                depth as nat,
                dict@,
            ),
        decreases bytes@.len() - offset,
    {
        if depth > MAX_BENCODE_DEPTH {
            return Err(());
        }
        proof {
            assert(bytes@.subrange(offset as int, bytes@.len() as int) =~= bytes@.skip(
                offset as int,
            ));
        }
        let (key_value, k) = match parse_bencode_depth(
            slice_subrange(bytes, offset, bytes.len()),
            depth,
        ) {
            Err(()) => {
                return Err(());
            },
            Ok(parsed) => parsed,
        };
        let key: Vec<u8> = match key_value.as_bytes() {
            None => {
                return Err(());
            },
            Some(key) => slice_to_vec(key),
        };
        let after: usize = offset + k;
        proof {
            assert(bytes@.subrange(after as int, bytes@.len() as int) =~= bytes@.skip(
                after as int,
            ));
        }
        match parse_bencode_depth(slice_subrange(bytes, after, bytes.len()), depth) {
            Err(()) => {
                return Err(());
            },
            Ok((v, n)) => {
                dict.insert(key, v);
                offset = after + n;
            },
        }
    }
    if offset >= bytes.len() {
        return Err(());
    }
    Ok((BValue::Dict(dict), offset + 1))
}

// ---------------------------------------------------------------------
// Torrents

/// A torrent: the hash that names it, the files it holds, and its name.
pub struct Torrent {
    pub info_hash: String,
    pub files: Vec<TorrentFile>,
    pub _name: Option<String>,
}

/// A file of a torrent.
pub struct TorrentFile {
    pub path: String,
    pub _length: u64,
}

/// What a [`TorrentFile`] says.
pub struct TorrentFileView {
    pub path: Seq<char>,
    pub length: u64,
}

/// What a [`Torrent`] says.
pub struct TorrentView {
    pub info_hash: Seq<char>,
    pub files: Seq<TorrentFileView>,
    pub name: Option<Seq<char>>,
}

impl View for TorrentFile {
    type V = TorrentFileView;

    open spec fn view(&self) -> TorrentFileView {
        TorrentFileView { path: self.path@, length: self._length }
    }
}

/// What a list of files says.
pub open spec fn files_view(files: Seq<TorrentFile>) -> Seq<TorrentFileView> {
    files.map_values(|f: TorrentFile| f@)
}

/// What an optional text says.
pub open spec fn optional_text(s: Option<String>) -> Option<Seq<char>> {
    match s {
        Some(s) => Some(s@),
        None => None,
    }
}

impl View for Torrent {
    type V = TorrentView;

    open spec fn view(&self) -> TorrentView {
        TorrentView {
            info_hash: self.info_hash@,
            files: files_view(self.files@),
            name: optional_text(self._name),
        }
    }
}

/// Where the value stands that the keys and values from `offset` up to an
/// `e` bind to `key`: its first byte and the one behind its last. `found` is
/// where one before them stands; the last value of a key counts. Nothing
/// where the keys and values cannot be read.
pub open spec fn place_from(
    bytes: Seq<u8>,
    offset: nat,
    depth: nat,
    key: Seq<u8>,
    found: Option<(nat, nat)>,
) -> Option<(nat, nat)>
    decreases
            (if offset < bytes.len() {
                bytes.len() - offset
            } else {
                0
            }),
{
    if offset >= bytes.len() {
        None
    } else if bytes[offset as int] == 0x65 {
        found
    } else {
        match value_spec(bytes.skip(offset as int), depth) {
            Some((ValueView::Str(name), k)) => if k == 0 || offset + k > bytes.len() {
                None
            } else {
                match value_spec(bytes.skip((offset + k) as int), depth) {
                    None => None,
                    Some((_, n)) => place_from(
                        bytes,
                        offset + k + n,
                        depth,
                        key,
                        if name == key {
                            Some((offset + k, offset + k + n))
                        } else {
                            found
                        },
                    ),
                }
            },
            _ => None,
        }
    }
}

/// The raw bytes of the info dictionary: those that hold the value which the
/// root dictionary binds to `info`, as they stand in the file.
pub open spec fn info_bytes_spec(bytes: Seq<u8>) -> Option<Seq<u8>> {
    if bytes.len() == 0 || bytes[0] != 0x64 {
        None
    } else {
        match place_from(bytes, 1, 1, key_info(), None) {
            None => None,
            Some((from, to)) => Some(bytes.subrange(from as int, to as int)),
        }
    }
}

/// The raw bytes of the info dictionary.
pub fn extract_info_bytes(bytes: &[u8]) -> (r: Option<&[u8]>)
    ensures
        match r {
            Some(b) => info_bytes_spec(bytes@) == Some(b@),
            None => info_bytes_spec(bytes@) is None,
        },
{
    let size: usize = bytes.len();
    if size == 0 || bytes[0] != 0x64 {
        return None;
    }
    let info_key: [u8; 4] = [0x69, 0x6e, 0x66, 0x6f];
    proof {
        assert(info_key@ =~= key_info());
    }
    let mut found: Option<(usize, usize)> = None;
    let mut offset: usize = 1;
    while offset < size && bytes[offset] != 0x65
        invariant
            0 < offset <= size,
            size == bytes@.len(),
            info_key@ == key_info(),
            found matches Some((from, to)) ==> from <= to <= size,
            place_from(bytes@, 1, 1, key_info(), None) == place_from(
                bytes@,
                offset as nat,
                1,
                key_info(),
                place_view(found),
            ),
        decreases size - offset,
    {
        proof {
            assert(bytes@.subrange(offset as int, size as int) =~= bytes@.skip(offset as int));
        }
        let (name, k) = match parse_bencode_depth(slice_subrange(bytes, offset, size), 1) {
            Err(()) => {
                return None;
            },
            Ok(parsed) => parsed,
        };
        let named = match name.as_bytes() {
            None => {
                return None;
            },
            Some(name) => same_bytes(name, info_key.as_slice()),
        };
        let from: usize = offset + k;
        proof {
            assert(bytes@.subrange(from as int, size as int) =~= bytes@.skip(from as int));
        }
        match parse_bencode_depth(slice_subrange(bytes, from, size), 1) {
            Err(()) => {
                return None;
            },
            Ok((_, n)) => {
                offset = from + n;
                if named {
                    found = Some((from, offset));
                }
            },
        }
    }
    if offset >= size {
        return None;
    }
    match found {
        None => None,
        Some((from, to)) => Some(slice_subrange(bytes, from, to)),
    }
}

/// A place, where there is one.
pub open spec fn place_view(p: Option<(usize, usize)>) -> Option<(nat, nat)> {
    match p {
        Some((from, to)) => Some((from as nat, to as nat)),
        None => None,
    }
}

/// The SHA-1 digest of some bytes, in hexadecimal.
pub fn sha1_str(data: &[u8]) -> (s: String)
    ensures
        s@ == encoding::hex_text(sha1::digest_spec(data@)),
{
    let digest = sha1_digest(data);
    hex_encode(digest.as_slice())
}

/// A number under a key, or zero.
pub open spec fn length_spec(d: Map<Seq<u8>, ValueView>) -> u64 {
    match field(d, key_length()) {
        Some(ValueView::Int(i)) => i as u64,
        _ => 0u64,
    }
}

/// The value of a key.
pub open spec fn field(d: Map<Seq<u8>, ValueView>, key: Seq<u8>) -> Option<ValueView> {
    if d.contains_key(key) {
        Some(d[key])
    } else {
        None
    }
}

/// `info`.
pub open spec fn key_info() -> Seq<u8> {
    seq![0x69, 0x6e, 0x66, 0x6f]
}

/// `name`.
pub open spec fn key_name() -> Seq<u8> {
    seq![0x6e, 0x61, 0x6d, 0x65]
}

/// `files`.
pub open spec fn key_files() -> Seq<u8> {
    seq![0x66, 0x69, 0x6c, 0x65, 0x73]
}

/// `length`.
pub open spec fn key_length() -> Seq<u8> {
    seq![0x6c, 0x65, 0x6e, 0x67, 0x74, 0x68]
}

/// `path`.
pub open spec fn key_path() -> Seq<u8> {
    seq![0x70, 0x61, 0x74, 0x68]
}

/// The texts in a list, in order; what is no text is left out.
pub open spec fn texts_of(items: Seq<ValueView>) -> Seq<Seq<char>>
    decreases items.len(),
{
    if items.len() == 0 {
        Seq::empty()
    } else {
        let before = texts_of(items.drop_last());
        match text_of(items.last()) {
            Some(s) => before.push(s),
            None => before,
        }
    }
}

/// Texts with a `/` between each two.
pub open spec fn join_slash(parts: Seq<Seq<char>>) -> Seq<char>
    decreases parts.len(),
{
    if parts.len() == 0 {
        Seq::empty()
    } else if parts.len() == 1 {
        parts[0]
    } else {
        join_slash(parts.drop_last()) + "/"@ + parts.last()
    }
}

/// The file that one entry of a `files` list describes, if it describes one.
pub open spec fn file_spec(v: ValueView) -> Option<TorrentFileView> {
    match v {
        ValueView::Dict(d) => match field(d, key_path()) {
            Some(ValueView::List(items)) => {
                let parts = texts_of(items);
                if parts.len() == 0 {
                    None
                } else {
                    Some(TorrentFileView { path: join_slash(parts), length: length_spec(d) })
                }
            },
            _ => None,
        },
        _ => None,
    }
}

/// The files that a `files` list describes, in order.
pub open spec fn files_spec(items: Seq<ValueView>) -> Seq<TorrentFileView>
    decreases items.len(),
{
    if items.len() == 0 {
        Seq::empty()
    } else {
        let before = files_spec(items.drop_last());
        match file_spec(items.last()) {
            Some(f) => before.push(f),
            None => before,
        }
    }
}

/// The torrent that an info dictionary describes under a hash.
pub open spec fn info_spec(d: Map<Seq<u8>, ValueView>, info_hash: Seq<char>) -> Result<
    TorrentView,
    Seq<char>,
> {
    let raw_name = field(d, key_name());
    let name: Option<Seq<char>> = match raw_name {
        Some(v) => text_of(v),
        None => None,
    };
    if raw_name is Some && raw_name->0 is Str && name is None {
        Err("Invalid name encoding (not UTF-8)"@)
    } else {
        let files = match field(d, key_files()) {
            Some(ValueView::List(items)) => files_spec(items),
            _ => match name {
                Some(n) => seq![TorrentFileView { path: n, length: length_spec(d) }],
                None => Seq::empty(),
            },
        };
        Ok(TorrentView { info_hash, files, name })
    }
}

/// The torrent that a `.torrent` file describes.
pub open spec fn torrent_spec(bytes: Seq<u8>) -> Result<TorrentView, Seq<char>> {
    match value_spec(bytes, 0) {
        None => Err("Invalid bencode"@),
        Some((ValueView::Dict(root), _)) => match field(root, key_info()) {
            None => Err("Missing info dict"@),
            Some(info) => match info_bytes_spec(bytes) {
                None => Err("Could not extract info bytes"@),
                Some(raw) => match info {
                    ValueView::Dict(d) => info_spec(
                        d,
                        encoding::hex_text(sha1::digest_spec(raw)),
                    ),
                    _ => Err("Info not a dict"@),
                },
            },
        },
        Some(_) => Err("Root not a dict"@),
    }
}

fn length_of(d: &Dict) -> (n: u64)
    ensures
        n == length_spec(d@),
{
    let key: [u8; 6] = [0x6c, 0x65, 0x6e, 0x67, 0x74, 0x68];
    proof {
        assert(key@ =~= key_length());
    }
    match d.get(key.as_slice()) {
        Some(v) => match v.get_int() {
            Some(i) => i as u64,
            None => 0,
        },
        None => 0,
    }
}

proof fn lemma_list_view(l: Seq<BValue>)
    ensures
        list_view(l).len() == l.len(),
        forall|i: int| 0 <= i < l.len() ==> #[trigger] list_view(l)[i] == value_view(l[i]),
    decreases l.len(),
{
    if l.len() > 0 {
        lemma_list_view(l.drop_last());
        assert forall|i: int| 0 <= i < l.len() implies #[trigger] list_view(l)[i] == value_view(
            l[i],
        ) by {
            if i < l.len() - 1 {
                assert(list_view(l.drop_last())[i] == value_view(l.drop_last()[i]));
            }
        }
    }
}

fn path_of(items: &Vec<BValue>) -> (r: Option<String>)
    ensures
        ({
            let parts = texts_of(list_view(items@));
            match r {
                Some(s) => parts.len() > 0 && s@ == join_slash(parts),
                None => parts.len() == 0,
            }
        }),
{
    let mut path = String::new();
    let mut any = false;
    let ghost all = list_view(items@);
    let mut i: usize = 0;
    proof {
        lemma_list_view(items@);
    }
    while i < items.len()
        invariant
            i <= items@.len(),
            all == list_view(items@),
            all.len() == items@.len(),
            forall|j: int| 0 <= j < items@.len() ==> #[trigger] all[j] == value_view(items@[j]),
            any == (texts_of(all.take(i as int)).len() > 0),
            path@ == join_slash(texts_of(all.take(i as int))),
        decreases items@.len() - i,
    {
        let ghost before = texts_of(all.take(i as int));
        proof {
            assert(all.take(i + 1).drop_last() =~= all.take(i as int));
            assert(all.take(i + 1).last() == items@[i as int]@);
        }
        match items[i].as_str() {
            Some(part) => {
                proof {
                    assert(before.push(part@).drop_last() =~= before);
                }
                if any {
                    path.push_str("/");
                }
                path.push_str(part);
                proof {
                    if !any {
                        assert(path@ =~= part@);
                    }
                }
                any = true;
            },
            None => {},
        }
        i += 1;
    }
    proof {
        assert(all.take(all.len() as int) =~= all);
    }
    if any {
        Some(path)
    } else {
        None
    }
}

fn file_of(v: &BValue) -> (r: Option<TorrentFile>)
    ensures
        match r {
            Some(f) => file_spec(v@) == Some(f@),
            None => file_spec(v@) is None,
        },
{
    let key: [u8; 4] = [0x70, 0x61, 0x74, 0x68];
    proof {
        assert(key@ =~= key_path());
    }
    match v.get_dict() {
        Some(d) => {
            let length: u64 = length_of(d);
            match d.get(key.as_slice()) {
                Some(p) => match p.get_list() {
                    Some(items) => match path_of(items) {
                        Some(path) => Some(TorrentFile { path, _length: length }),
                        None => None,
                    },
                    None => None,
                },
                None => None,
            }
        },
        None => None,
    }
}

fn files_of(items: &Vec<BValue>) -> (files: Vec<TorrentFile>)
    ensures
        files_view(files@) == files_spec(list_view(items@)),
{
    let mut files: Vec<TorrentFile> = Vec::new();
    let ghost all = list_view(items@);
    let mut i: usize = 0;
    proof {
        lemma_list_view(items@);
        assert(files_view(files@) =~= Seq::empty());
    }
    while i < items.len()
        invariant
            i <= items@.len(),
            all == list_view(items@),
            all.len() == items@.len(),
            forall|j: int| 0 <= j < items@.len() ==> #[trigger] all[j] == value_view(items@[j]),
            files_view(files@) == files_spec(all.take(i as int)),
        decreases items@.len() - i,
    {
        let ghost before = files_view(files@);
        proof {
            assert(all.take(i + 1).drop_last() =~= all.take(i as int));
            assert(all.take(i + 1).last() == items@[i as int]@);
        }
        match file_of(&items[i]) {
            Some(f) => {
                let ghost seen = f@;
                files.push(f);
                proof {
                    assert(files_view(files@) =~= before.push(seen));
                }
            },
            None => {},
        }
        i += 1;
    }
    proof {
        assert(all.take(all.len() as int) =~= all);
    }
    files
}

fn torrent_of(d: &Dict, info_hash: String) -> (r: Result<Torrent, String>)
    ensures
        match r {
            Ok(t) => info_spec(d@, info_hash@) == Ok::<TorrentView, Seq<char>>(t@),
            Err(e) => info_spec(d@, info_hash@) == Err::<TorrentView, Seq<char>>(e@),
        },
{
    let name_key: [u8; 4] = [0x6e, 0x61, 0x6d, 0x65];
    let files_key: [u8; 5] = [0x66, 0x69, 0x6c, 0x65, 0x73];
    proof {
        assert(name_key@ =~= key_name());
        assert(files_key@ =~= key_files());
    }
    let mut name: Option<String> = None;
    match d.get(name_key.as_slice()) {
        Some(v) => match v.as_bytes() {
            Some(bytes) => match from_utf8(bytes) {
                Some(s) => {
                    name = Some(s.to_owned());
                },
                None => {
                    return Err("Invalid name encoding (not UTF-8)".to_owned());
                },
            },
            None => {},
        },
        None => {},
    }
    let list: Option<&Vec<BValue>> = match d.get(files_key.as_slice()) {
        Some(v) => v.get_list(),
        None => None,
    };
    let files: Vec<TorrentFile> = match list {
        // Several files.
        Some(items) => files_of(items),
        // One file.
        None => {
            let mut files: Vec<TorrentFile> = Vec::new();
            match &name {
                Some(n) => {
                    files.push(TorrentFile { path: n.clone(), _length: length_of(d) });
                },
                None => {},
            }
            proof {
                if name is Some {
                    assert(files_view(files@) =~= seq![
                        TorrentFileView { path: name->0@, length: length_spec(d@) },
                    ]);
                } else {
                    assert(files_view(files@) =~= Seq::empty());
                }
            }
            files
        },
    };
    Ok(Torrent { info_hash, files, _name: name })
}

/// Read a `.torrent` file. The info hash is over the exact raw bytes of the
/// info dictionary, not over a re-encoding of what was parsed.
pub fn parse_torrent(bytes: &[u8]) -> (r: Result<Torrent, String>)
    ensures
        match r {
            Ok(t) => torrent_spec(bytes@) == Ok::<TorrentView, Seq<char>>(t@),
            Err(e) => torrent_spec(bytes@) == Err::<TorrentView, Seq<char>>(e@),
        },
{
    let root: BValue = match parse_bencode(bytes) {
        Ok((root, _)) => root,
        Err(()) => {
            return Err("Invalid bencode".to_owned());
        },
    };
    let dict: &Dict = match root.get_dict() {
        Some(dict) => dict,
        None => {
            return Err("Root not a dict".to_owned());
        },
    };
    let info_key: [u8; 4] = [0x69, 0x6e, 0x66, 0x6f];
    proof {
        assert(info_key@ =~= key_info());
    }
    let info: &BValue = match dict.get(info_key.as_slice()) {
        Some(info) => info,
        None => {
            return Err("Missing info dict".to_owned());
        },
    };
    let raw: &[u8] = match extract_info_bytes(bytes) {
        Some(raw) => raw,
        None => {
            return Err("Could not extract info bytes".to_owned());
        },
    };
    let info_hash = sha1_str(raw);
    match info.get_dict() {
        Some(d) => torrent_of(d, info_hash),
        None => Err("Info not a dict".to_owned()),
    }
}

// ---------------------------------------------------------------------
// Laws

proof fn lemma_found(a: Seq<u8>, x: u8)
    ensures
        find_byte(a, x) matches Some(i) ==> 0 <= i < a.len() && a[i] == x,
    decreases a.len(),
{
    if a.len() > 0 && a[0] != x {
        lemma_found(a.skip(1), x);
    }
}

proof fn lemma_find_byte(a: Seq<u8>, b: Seq<u8>, x: u8)
    requires
        find_byte(a, x) matches Some(i) && i < b.len() && forall|k: int|
            0 <= k <= i ==> a[k] == b[k],
    ensures
        find_byte(b, x) == find_byte(a, x),
    decreases a.len(),
{
    lemma_found(a, x);
    assert(a[0] == b[0]);
    if a[0] != x {
        lemma_found(a.skip(1), x);
        lemma_find_byte(a.skip(1), b.skip(1), x);
    }
}

/// Whether two sequences begin with the same so many bytes.
spec fn alike(a: Seq<u8>, b: Seq<u8>, n: nat) -> bool {
    n <= a.len() && n <= b.len() && a.take(n as int) == b.take(n as int)
}

proof fn lemma_alike_behind(a: Seq<u8>, b: Seq<u8>, n: nat, from: nat)
    requires
        alike(a, b, n),
        from <= n,
    ensures
        alike(a.skip(from as int), b.skip(from as int), (n - from) as nat),
        forall|i: int| 0 <= i < n ==> a[i] == b[i],
{
    assert(a.skip(from as int).take(n - from) =~= a.take(n as int).skip(from as int));
    assert(b.skip(from as int).take(n - from) =~= b.take(n as int).skip(from as int));
    assert forall|i: int| 0 <= i < n implies a[i] == b[i] by {
        assert(a.take(n as int)[i] == b.take(n as int)[i]);
    }
}

proof fn lemma_alike_shorter(a: Seq<u8>, b: Seq<u8>, n: nat, m: nat)
    requires
        alike(a, b, n),
        m <= n,
    ensures
        alike(a, b, m),
{
    assert(a.take(m as int) =~= a.take(n as int).take(m as int));
    assert(b.take(m as int) =~= b.take(n as int).take(m as int));
}

/// A value takes at least one of the bytes it is read from, and no more than
/// there are.
pub proof fn a_value_lies_inside_its_bytes(bytes: Seq<u8>, depth: nat)
    ensures
        value_spec(bytes, depth) matches Some((_, n)) ==> 0 < n <= bytes.len(),
    decreases MAX_BENCODE_DEPTH + 1 - depth, 0nat,
{
    if depth <= MAX_BENCODE_DEPTH && bytes.len() > 0 {
        if bytes[0] == 0x69 {
            lemma_found(bytes, 0x65);
        } else if bytes[0] == 0x6c {
            lemma_items_inside(bytes, 1, depth + 1, Seq::empty());
        } else if bytes[0] == 0x64 {
            lemma_pairs_inside(bytes, 1, depth + 1, Map::empty());
        } else {
            lemma_found(bytes, 0x3a);
        }
    }
}

proof fn lemma_items_inside(bytes: Seq<u8>, offset: nat, depth: nat, items: Seq<ValueView>)
    ensures
        items_from(bytes, offset, depth, items) matches Some((_, end)) ==> offset < end
            <= bytes.len(),
    decreases
            MAX_BENCODE_DEPTH + 1 - depth,
            1 + (if offset < bytes.len() {
                bytes.len() - offset
            } else {
                0
            }),
{
    if offset < bytes.len() && bytes[offset as int] != 0x65 && depth <= MAX_BENCODE_DEPTH {
        let rest = bytes.skip(offset as int);
        a_value_lies_inside_its_bytes(rest, depth);
        if let Some((v, n)) = value_spec(rest, depth) {
            lemma_items_inside(bytes, offset + n, depth, items.push(v));
        }
    }
}

proof fn lemma_pairs_inside(
    bytes: Seq<u8>,
    offset: nat,
    depth: nat,
    pairs: Map<Seq<u8>, ValueView>,
)
    ensures
        pairs_from(bytes, offset, depth, pairs) matches Some((_, end)) ==> offset < end
            <= bytes.len(),
    decreases
            MAX_BENCODE_DEPTH + 1 - depth,
            1 + (if offset < bytes.len() {
                bytes.len() - offset
            } else {
                0
            }),
{
    if offset < bytes.len() && bytes[offset as int] != 0x65 && depth <= MAX_BENCODE_DEPTH {
        let rest = bytes.skip(offset as int);
        a_value_lies_inside_its_bytes(rest, depth);
        if let Some((ValueView::Str(key), k)) = value_spec(rest, depth) {
            let behind = bytes.skip((offset + k) as int);
            a_value_lies_inside_its_bytes(behind, depth);
            if let Some((v, n)) = value_spec(behind, depth) {
                lemma_pairs_inside(bytes, offset + k + n, depth, pairs.insert(key, v));
            }
        }
    }
}

/// What a value is, and how many bytes it takes, depends on those bytes
/// alone and not on what stands behind them.
pub proof fn a_value_is_its_own_bytes(a: Seq<u8>, b: Seq<u8>, depth: nat)
    requires
        value_spec(a, depth) matches Some((_, n)) && n <= b.len() && a.take(n as int) == b.take(
            n as int,
        ),
    ensures
        value_spec(b, depth) == value_spec(a, depth),
    decreases MAX_BENCODE_DEPTH + 1 - depth, 0nat,
{
    a_value_lies_inside_its_bytes(a, depth);
    let (_, n) = value_spec(a, depth)->0;
    lemma_alike_behind(a, b, n, 0);
    if a[0] == 0x69 {
        lemma_found(a, 0x65);
        lemma_find_byte(a, b, 0x65);
        let end = find_byte(a, 0x65)->0;
        assert(a[end] != a[0]);
        assert(a.subrange(1, end) =~= b.subrange(1, end));
    } else if a[0] == 0x6c {
        lemma_items_alike(a, b, 1, depth + 1, Seq::empty());
    } else if a[0] == 0x64 {
        lemma_pairs_alike(a, b, 1, depth + 1, Map::empty());
    } else {
        lemma_found(a, 0x3a);
        let colon = find_byte(a, 0x3a)->0;
        lemma_find_byte(a, b, 0x3a);
        assert(a.subrange(0, colon) =~= b.subrange(0, colon));
        assert(a.subrange(colon + 1, n as int) =~= b.subrange(colon + 1, n as int));
    }
}

proof fn lemma_items_alike(
    a: Seq<u8>,
    b: Seq<u8>,
    offset: nat,
    depth: nat,
    items: Seq<ValueView>,
)
    requires
        items_from(a, offset, depth, items) matches Some((_, end)) && alike(a, b, end),
    ensures
        items_from(b, offset, depth, items) == items_from(a, offset, depth, items),
    decreases
            MAX_BENCODE_DEPTH + 1 - depth,
            1 + (if offset < a.len() {
                a.len() - offset
            } else {
                0
            }),
{
    lemma_items_inside(a, offset, depth, items);
    let (_, end) = items_from(a, offset, depth, items)->0;
    lemma_alike_behind(a, b, end, offset);
    if a[offset as int] != 0x65 {
        let rest = a.skip(offset as int);
        a_value_lies_inside_its_bytes(rest, depth);
        let (v, n) = value_spec(rest, depth)->0;
        lemma_items_inside(a, offset + n, depth, items.push(v));
        lemma_alike_shorter(rest, b.skip(offset as int), (end - offset) as nat, n);
        a_value_is_its_own_bytes(rest, b.skip(offset as int), depth);
        lemma_items_alike(a, b, offset + n, depth, items.push(v));
    }
}

proof fn lemma_pairs_alike(
    a: Seq<u8>,
    b: Seq<u8>,
    offset: nat,
    depth: nat,
    pairs: Map<Seq<u8>, ValueView>,
)
    requires
        pairs_from(a, offset, depth, pairs) matches Some((_, end)) && alike(a, b, end),
    ensures
        pairs_from(b, offset, depth, pairs) == pairs_from(a, offset, depth, pairs),
    decreases
            MAX_BENCODE_DEPTH + 1 - depth,
            1 + (if offset < a.len() {
                a.len() - offset
            } else {
                0
            }),
{
    lemma_pairs_inside(a, offset, depth, pairs);
    let (_, end) = pairs_from(a, offset, depth, pairs)->0;
    lemma_alike_behind(a, b, end, offset);
    if a[offset as int] != 0x65 {
        let rest = a.skip(offset as int);
        a_value_lies_inside_its_bytes(rest, depth);
        let (name, k) = value_spec(rest, depth)->0;
        let key = name->Str_0;
        let behind = a.skip((offset + k) as int);
        a_value_lies_inside_its_bytes(behind, depth);
        let (v, n) = value_spec(behind, depth)->0;
        lemma_pairs_inside(a, offset + k + n, depth, pairs.insert(key, v));
        lemma_alike_shorter(rest, b.skip(offset as int), (end - offset) as nat, k);
        a_value_is_its_own_bytes(rest, b.skip(offset as int), depth);
        lemma_alike_behind(a, b, end, offset + k);
        lemma_alike_shorter(
            behind,
            b.skip((offset + k) as int),
            (end - offset - k) as nat,
            n,
        );
        a_value_is_its_own_bytes(behind, b.skip((offset + k) as int), depth);
        lemma_pairs_alike(a, b, offset + k + n, depth, pairs.insert(key, v));
    }
}

/// Where a value stands is where the dictionary has it from.
proof fn lemma_place(
    bytes: Seq<u8>,
    offset: nat,
    depth: nat,
    pairs: Map<Seq<u8>, ValueView>,
    key: Seq<u8>,
    found: Option<(nat, nat)>,
)
    requires
        depth <= MAX_BENCODE_DEPTH,
        found is Some == pairs.contains_key(key),
        found matches Some((from, to)) ==> from <= to <= bytes.len() && value_spec(
            bytes.skip(from as int),
            depth,
        ) == Some((pairs[key], (to - from) as nat)),
    ensures
        ({
            let place = place_from(bytes, offset, depth, key, found);
            match pairs_from(bytes, offset, depth, pairs) {
                None => place is None,
                Some((all, _)) => {
                    &&& place is Some == all.contains_key(key)
                    &&& place matches Some((from, to)) ==> from <= to <= bytes.len() && value_spec(
                        bytes.skip(from as int),
                        depth,
                    ) == Some((all[key], (to - from) as nat))
                },
            }
        }),
    decreases bytes.len() - offset,
{
    if offset < bytes.len() && bytes[offset as int] != 0x65 {
        let rest = bytes.skip(offset as int);
        a_value_lies_inside_its_bytes(rest, depth);
        if let Some((ValueView::Str(name), k)) = value_spec(rest, depth) {
            let behind = bytes.skip((offset + k) as int);
            a_value_lies_inside_its_bytes(behind, depth);
            if let Some((v, n)) = value_spec(behind, depth) {
                let next = if name == key {
                    Some((offset + k, offset + k + n))
                } else {
                    found
                };
                lemma_place(bytes, offset + k + n, depth, pairs.insert(name, v), key, next);
            }
        }
    }
}

/// What the info hash is over is the value that the root dictionary binds to
/// `info`, as it stands in the file, from its first byte to its last: there
/// is one exactly if the dictionary has one.
pub proof fn the_info_hash_is_over_the_info_value(bytes: Seq<u8>)
    requires
        value_spec(bytes, 0) matches Some((root, _)) && root is Dict,
    ensures
        ({
            let (root, _) = value_spec(bytes, 0)->0;
            match info_bytes_spec(bytes) {
                None => !root->Dict_0.contains_key(key_info()),
                Some(raw) => {
                    &&& root->Dict_0.contains_key(key_info())
                    &&& value_spec(raw, 1) == Some((root->Dict_0[key_info()], raw.len()))
                    &&& exists|start: int|
                        0 <= start <= bytes.len() - raw.len() && raw == #[trigger] bytes.subrange(
                            start,
                            start + raw.len(),
                        )
                },
            }
        }),
{
    lemma_place(bytes, 1, 1, Map::empty(), key_info(), None);
    if let Some((from, to)) = place_from(bytes, 1, 1, key_info(), None) {
        let raw = bytes.subrange(from as int, to as int);
        let rest = bytes.skip(from as int);
        assert(raw =~= rest.take(to - from));
        assert(raw.take(to - from) =~= rest.take(to - from));
        a_value_is_its_own_bytes(rest, raw, 1);
        assert(raw == bytes.subrange(from as int, from + raw.len() as int));
    }
}

} // verus!
