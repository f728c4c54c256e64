//! Strings, as sequences of characters.
//!
//! Every text this crate produces is stated character by character: a
//! contract says which literals stand in it, in which order, and what the
//! numbers between them are written as.
use vstd::prelude::*;

verus! {

/// `String::push` puts one character at the end of the string.
pub assume_specification[ String::push ](s: &mut String, c: char)
    ensures
        final(s)@ == old(s)@.push(c),
;

/// `String::push_str` puts a string at the end of the string.
pub assume_specification[ String::push_str ](s: &mut String, t: &str)
    ensures
        final(s)@ == old(s)@ + t@,
;

/// The characters of a string.
pub fn chars_of(s: &str) -> (v: Vec<char>)
    ensures
        v@ == s@,
{
    let mut v: Vec<char> = Vec::new();
    for c in it: s.chars()
        invariant
            v@ == s@.take(it.index() as int),
            it.seq() == s@,
    {
        v.push(c);
        proof {
            assert(s@.take(it.index() as int).push(c) =~= s@.take(it.index() + 1));
        }
    }
    proof {
        assert(s@.take(s@.len() as int) =~= s@);
    }
    v
}

/// The string of a run of characters.
pub fn string_of(v: &[char]) -> (s: String)
    ensures
        s@ == v@,
{
    let mut s = String::new();
    let mut i: usize = 0;
    while i < v.len()
        invariant
            i <= v.len(),
            s@ == v@.take(i as int),
        decreases v.len() - i,
    {
        s.push(v[i]);
        proof {
            assert(v@.take(i as int).push(v@[i as int]) =~= v@.take(i + 1));
        }
        i += 1;
    }
    proof {
        assert(v@.take(v@.len() as int) =~= v@);
    }
    s
}

/// The characters of `v` from `from` up to `to`, as a string.
pub fn substring(v: &[char], from: usize, to: usize) -> (s: String)
    requires
        from <= to <= v@.len(),
    ensures
        s@ == v@.subrange(from as int, to as int),
{
    string_of(vstd::slice::slice_subrange(v, from, to))
}

/// Two texts, one after the other.
pub fn cat2(a: &str, b: &str) -> (s: String)
    ensures
        s@ == a@ + b@,
{
    let mut s = a.to_owned();
    s.push_str(b);
    s
}

/// Three texts, one after the other.
pub fn cat3(a: &str, b: &str, c: &str) -> (s: String)
    ensures
        s@ == a@ + b@ + c@,
{
    let mut s = cat2(a, b);
    s.push_str(c);
    s
}

/// Four texts, one after the other.
pub fn cat4(a: &str, b: &str, c: &str, d: &str) -> (s: String)
    ensures
        s@ == a@ + b@ + c@ + d@,
{
    let mut s = cat3(a, b, c);
    s.push_str(d);
    s
}

/// Five texts, one after the other.
pub fn cat5(a: &str, b: &str, c: &str, d: &str, e: &str) -> (s: String)
    ensures
        s@ == a@ + b@ + c@ + d@ + e@,
{
    let mut s = cat4(a, b, c, d);
    s.push_str(e);
    s
}

/// Seven texts, one after the other.
pub fn cat7(a: &str, b: &str, c: &str, d: &str, e: &str, f: &str, g: &str) -> (s: String)
    ensures
        s@ == a@ + b@ + c@ + d@ + e@ + f@ + g@,
{
    let mut s = cat5(a, b, c, d, e);
    s.push_str(f);
    s.push_str(g);
    s
}

/// The decimal digits of a number, the most significant first.
pub open spec fn dec(n: nat) -> Seq<char>
    decreases n,
{
    if n < 10 {
        seq![('0' as int + n) as char]
    } else {
        dec(n / 10).push(('0' as int + n % 10) as char)
    }
}

fn digit(d: u64) -> (c: char)
    requires
        d < 10,
    ensures
        c == ('0' as int + d) as char,
{
    (48u8 + d as u8) as char
}

/// A number in decimal.
pub fn decimal(n: u64) -> (s: String)
    ensures
        s@ == dec(n as nat),
    decreases n,
{
    if n < 10 {
        let mut s = String::new();
        s.push(digit(n));
        proof {
            assert(Seq::<char>::empty().push(('0' as int + n) as char) =~= dec(n as nat));
        }
        s
    } else {
        let mut s = decimal(n / 10);
        s.push(digit(n % 10));
        s
    }
}

/// One hexadecimal digit, in lower case.
pub open spec fn hex_digit(d: int) -> char {
    if d < 10 {
        ('0' as int + d) as char
    } else {
        ('a' as int + (d - 10)) as char
    }
}

/// The hexadecimal digits of a number, in lower case, the most significant
/// first.
pub open spec fn hex(n: nat) -> Seq<char>
    decreases n,
{
    if n < 16 {
        seq![hex_digit(n as int)]
    } else {
        hex(n / 16).push(hex_digit((n % 16) as int))
    }
}

fn hexadecimal_digit(d: u64) -> (c: char)
    requires
        d < 16,
    ensures
        c == hex_digit(d as int),
{
    if d < 10 {
        (48u8 + d as u8) as char
    } else {
        (97u8 + (d - 10) as u8) as char
    }
}

/// A number in hexadecimal.
pub fn hexadecimal(n: u64) -> (s: String)
    ensures
        s@ == hex(n as nat),
    decreases n,
{
    if n < 16 {
        let mut s = String::new();
        s.push(hexadecimal_digit(n));
        proof {
            assert(Seq::<char>::empty().push(hex_digit(n as int)) =~= hex(n as nat));
        }
        s
    } else {
        let mut s = hexadecimal(n / 16);
        s.push(hexadecimal_digit(n % 16));
        s
    }
}

/// What Unicode calls white space.
pub open spec fn is_white_space(c: char) -> bool {
    ||| 0x9 <= c as int <= 0xd
    ||| c as int == 0x20
    ||| c as int == 0x85
    ||| c as int == 0xa0
    ||| c as int == 0x1680
    ||| 0x2000 <= c as int <= 0x200a
    ||| c as int == 0x2028
    ||| c as int == 0x2029
    ||| c as int == 0x202f
    ||| c as int == 0x205f
    ||| c as int == 0x3000
}

/// Whether a character is white space.
pub fn white_space(c: char) -> (r: bool)
    ensures
        r == is_white_space(c),
{
    let u: u32 = c as u32;
    (0x9 <= u && u <= 0xd) || u == 0x20 || u == 0x85 || u == 0xa0 || u == 0x1680 || (0x2000 <= u
        && u <= 0x200a) || u == 0x2028 || u == 0x2029 || u == 0x202f || u == 0x205f || u == 0x3000
}

/// A text without the white space it starts with.
pub open spec fn trim_start(s: Seq<char>) -> Seq<char>
    decreases s.len(),
{
    if s.len() > 0 && is_white_space(s[0]) {
        trim_start(s.drop_first())
    } else {
        s
    }
}

/// A text without the white space it ends with.
pub open spec fn trim_end(s: Seq<char>) -> Seq<char>
    decreases s.len(),
{
    if s.len() > 0 && is_white_space(s.last()) {
        trim_end(s.drop_last())
    } else {
        s
    }
}

/// A text without the white space around it.
pub open spec fn trim(s: Seq<char>) -> Seq<char> {
    trim_end(trim_start(s))
}

/// The characters of `v` between `from` and `to` without the white space
/// around them.
pub fn trimmed_range(v: &[char], from: usize, to: usize) -> (r: (usize, usize))
    requires
        from <= to <= v@.len(),
    ensures
        from <= r.0 <= r.1 <= to,
        v@.subrange(r.0 as int, r.1 as int) == trim(v@.subrange(from as int, to as int)),
{
    let mut start: usize = from;
    let ghost whole = v@.subrange(from as int, to as int);
    while start < to && white_space(v[start])
        invariant
            from <= start <= to <= v@.len(),
            trim_start(v@.subrange(start as int, to as int)) == trim_start(whole),
        decreases to - start,
    {
        proof {
            assert(v@.subrange(start as int, to as int).drop_first() =~= v@.subrange(
                start + 1,
                to as int,
            ));
        }
        start += 1;
    }
    let ghost left = v@.subrange(start as int, to as int);
    let mut end: usize = to;
    while start < end && white_space(v[end - 1])
        invariant
            from <= start <= end <= to <= v@.len(),
            trim_end(v@.subrange(start as int, end as int)) == trim_end(left),
        decreases end - start,
    {
        proof {
            assert(v@.subrange(start as int, end as int).drop_last() =~= v@.subrange(
                start as int,
                end - 1,
            ));
        }
        end -= 1;
    }
    (start, end)
}

/// A text without the white space around it.
pub fn trimmed(s: &str) -> (r: String)
    ensures
        r@ == trim(s@),
{
    let v = chars_of(s);
    let (start, end) = trimmed_range(v.as_slice(), 0, v.len());
    proof {
        assert(v@.subrange(0, v@.len() as int) =~= s@);
    }
    substring(v.as_slice(), start, end)
}

/// A text without the white space it ends with.
pub fn trimmed_end(s: &str) -> (r: String)
    ensures
        r@ == trim_end(s@),
{
    let v = chars_of(s);
    let mut end: usize = v.len();
    proof {
        assert(v@.subrange(0, end as int) =~= s@);
    }
    while end > 0 && white_space(v[end - 1])
        invariant
            end <= v@.len(),
            trim_end(v@.subrange(0, end as int)) == trim_end(s@),
        decreases end,
    {
        proof {
            assert(v@.subrange(0, end as int).drop_last() =~= v@.subrange(0, end - 1));
        }
        end -= 1;
    }
    substring(v.as_slice(), 0, end)
}

/// Whether two texts are the same.
pub fn same(a: &str, b: &str) -> (r: bool)
    ensures
        r == (a@ == b@),
{
    let x = chars_of(a);
    let y = chars_of(b);
    same_chars(x.as_slice(), y.as_slice())
}

/// Whether two runs of characters are the same.
pub fn same_chars(x: &[char], y: &[char]) -> (r: bool)
    ensures
        r == (x@ == y@),
{
    if x.len() != y.len() {
        return false;
    }
    let mut i: usize = 0;
    while i < x.len()
        invariant
            i <= x@.len(),
            x@.len() == y@.len(),
            forall|j: int| 0 <= j < i ==> x@[j] == y@[j],
        decreases x@.len() - i,
    {
        if x[i] != y[i] {
            return false;
        }
        i += 1;
    }
    proof {
        assert(x@ =~= y@);
    }
    true
}

/// Where a character first stands in a text.
pub open spec fn find_char(s: Seq<char>, c: char) -> Option<int>
    decreases s.len(),
{
    if s.len() == 0 {
        None
    } else if s[0] == c {
        Some(0)
    } else {
        match find_char(s.drop_first(), c) {
            Some(i) => Some(i + 1),
            None => None,
        }
    }
}

/// Where a character first stands is in the text, holds the character, and
/// nothing before it does.
pub proof fn lemma_find_char(s: Seq<char>, c: char)
    ensures
        match find_char(s, c) {
            Some(i) => 0 <= i < s.len() && s[i] == c && forall|j: int| 0 <= j < i ==> s[j] != c,
            None => forall|j: int| 0 <= j < s.len() ==> s[j] != c,
        },
    decreases s.len(),
{
    if s.len() > 0 && s[0] != c {
        let t = s.drop_first();
        lemma_find_char(t, c);
        match find_char(t, c) {
            Some(i) => {
                assert forall|j: int| 0 <= j < i + 1 implies s[j] != c by {
                    if j > 0 {
                        assert(t[j - 1] != c);
                    }
                }
            },
            None => {
                assert forall|j: int| 0 <= j < s.len() implies s[j] != c by {
                    if j > 0 {
                        assert(t[j - 1] != c);
                    }
                }
            },
        }
    }
}

/// The place that [`find_char`] names is the only one with nothing of the
/// character before it.
pub proof fn lemma_find_char_at(s: Seq<char>, c: char, i: int)
    requires
        0 <= i < s.len(),
        s[i] == c,
        forall|j: int| 0 <= j < i ==> s[j] != c,
    ensures
        find_char(s, c) == Some(i),
{
    lemma_find_char(s, c);
    match find_char(s, c) {
        Some(k) => {
            if k < i {
                assert(s[k] != c);
            }
        },
        None => {},
    }
}

/// Where a character first stands in a run of characters.
pub fn position(v: &[char], c: char) -> (r: Option<usize>)
    ensures
        match r {
            Some(i) => find_char(v@, c) == Some(i as int) && i < v@.len(),
            None => find_char(v@, c) is None,
        },
{
    let mut i: usize = 0;
    while i < v.len()
        invariant
            i <= v@.len(),
            forall|j: int| 0 <= j < i ==> v@[j] != c,
        decreases v@.len() - i,
    {
        if v[i] == c {
            proof {
                lemma_find_char_at(v@, c, i as int);
            }
            return Some(i);
        }
        i += 1;
    }
    proof {
        lemma_find_char(v@, c);
    }
    None
}

/// Whether a text holds a character.
pub fn contains_char(s: &str, c: char) -> (r: bool)
    ensures
        r == s@.contains(c),
{
    let v = chars_of(s);
    let found = position(v.as_slice(), c);
    proof {
        lemma_find_char(s@, c);
    }
    found.is_some()
}

/// `char::from_u32` gives the character with a code point, and nothing for a
/// number that is no Unicode scalar value.
pub assume_specification[ char::from_u32 ](i: u32) -> (r: Option<char>)
    ensures
        r is Some <==> (i <= 0xd7ff || 0xe000 <= i <= 0x10ffff),
        r is Some ==> r->0 == i as char,
;

/// The character that stands where a character could not be decoded.
pub open spec fn replacement() -> char {
    0xfffd as char
}

fn replacement_char() -> (c: char)
    ensures
        c == replacement(),
{
    '\u{fffd}'
}

/// One character per byte: the byte is the code point.
pub open spec fn latin1(bytes: Seq<u8>) -> Seq<char> {
    bytes.map_values(|b: u8| b as char)
}

/// The text of bytes that are one character each.
pub fn from_latin1(bytes: &[u8]) -> (s: String)
    ensures
        s@ == latin1(bytes@),
{
    let mut s = String::new();
    let mut i: usize = 0;
    while i < bytes.len()
        invariant
            i <= bytes@.len(),
            s@ == latin1(bytes@.take(i as int)),
        decreases bytes@.len() - i,
    {
        s.push(bytes[i] as char);
        proof {
            assert(latin1(bytes@.take(i as int)).push(bytes@[i as int] as char) =~= latin1(
                bytes@.take(i + 1),
            ));
        }
        i += 1;
    }
    proof {
        assert(bytes@.take(bytes@.len() as int) =~= bytes@);
    }
    s
}

/// Pairs of bytes as numbers, the more significant byte first. An odd byte
/// at the end is left out.
pub open spec fn big_endian_units(bytes: Seq<u8>) -> Seq<u16> {
    Seq::new(bytes.len() / 2, |i: int| (bytes[2 * i] * 256 + bytes[2 * i + 1]) as u16)
}

/// UTF-16, where a surrogate that is not one of a pair reads as the
/// replacement character.
pub open spec fn utf16_text(units: Seq<u16>) -> Seq<char>
    decreases units.len(),
{
    if units.len() == 0 {
        Seq::empty()
    } else if !(0xd800 <= units[0] <= 0xdfff) {
        seq![units[0] as char] + utf16_text(units.skip(1))
    } else if units[0] <= 0xdbff && units.len() > 1 && 0xdc00 <= units[1] <= 0xdfff {
        seq![(0x10000 + (units[0] - 0xd800) * 0x400 + (units[1] - 0xdc00)) as char] + utf16_text(
            units.skip(2),
        )
    } else {
        seq![replacement()] + utf16_text(units.skip(1))
    }
}

/// The text of UTF-16 bytes, the more significant byte of each pair first.
pub fn from_utf16_be(bytes: &[u8]) -> (s: String)
    ensures
        s@ == utf16_text(big_endian_units(bytes@)),
{
    let mut s = String::new();
    let mut i: usize = 0;
    let all: usize = bytes.len();
    let n: usize = all / 2;
    let ghost units = big_endian_units(bytes@);
    proof {
        assert(units.skip(0) =~= units);
        assert(Seq::<char>::empty() + utf16_text(units) =~= utf16_text(units));
    }
    while i < n
        invariant
            i <= n,
            n == units.len(),
            2 * n <= all,
            all == bytes@.len(),
            units == big_endian_units(bytes@),
            s@ + utf16_text(units.skip(i as int)) == utf16_text(units),
        decreases n - i,
    {
        let ghost rest = units.skip(i as int);
        let ghost before = s@;
        let u: u32 = bytes[2 * i] as u32 * 256 + bytes[2 * i + 1] as u32;
        proof {
            assert(rest[0] == u);
            assert(rest.skip(1) =~= units.skip(i + 1));
        }
        if u < 0xd800 || u > 0xdfff {
            let c: char = match char::from_u32(u) {
                Some(c) => c,
                None => replacement_char(),
            };
            s.push(c);
            proof {
                assert(c == rest[0] as char);
                assert(before.push(c) + utf16_text(units.skip(i + 1)) =~= before + (seq![c]
                    + utf16_text(units.skip(i + 1))));
            }
            i += 1;
        } else {
            let mut low: u32 = 0;
            if u <= 0xdbff && i + 1 < n {
                low = bytes[2 * (i + 1)] as u32 * 256 + bytes[2 * (i + 1) + 1] as u32;
                proof {
                    assert(rest[1] == low);
                }
            }
            if 0xdc00 <= low && low <= 0xdfff {
                let code: u32 = 0x10000 + (u - 0xd800) * 0x400 + (low - 0xdc00);
                let c: char = match char::from_u32(code) {
                    Some(c) => c,
                    None => replacement_char(),
                };
                s.push(c);
                proof {
                    assert(c == code as char);
                    assert(rest.skip(2) =~= units.skip(i + 2));
                    assert(before.push(c) + utf16_text(units.skip(i + 2)) =~= before + (seq![c]
                        + utf16_text(units.skip(i + 2))));
                }
                i += 2;
            } else {
                let c: char = replacement_char();
                s.push(c);
                proof {
                    assert(before.push(c) + utf16_text(units.skip(i + 1)) =~= before + (seq![c]
                        + utf16_text(units.skip(i + 1))));
                }
                i += 1;
            }
        }
    }
    proof {
        assert(units.skip(i as int) =~= Seq::empty());
        assert(s@ + utf16_text(Seq::empty()) =~= s@);
    }
    s
}

/// What `String::from_utf8_lossy` reads bytes as.
pub uninterp spec fn lossy_utf8(bytes: Seq<u8>) -> Seq<char>;

/// `String::from_utf8_lossy`: bytes that are UTF-8 are read as the text they
/// encode; of other bytes, what is not UTF-8 is read as replacement
/// characters. Which runs of bytes one replacement character stands for is
/// left to the function's name.
#[verifier::external_body]
pub(crate) fn from_utf8_lossy(bytes: &[u8]) -> (s: String)
    ensures
        s@ == lossy_utf8(bytes@),
        vstd::utf8::valid_utf8(bytes@) ==> s@ == vstd::utf8::decode_utf8(bytes@),
{
    String::from_utf8_lossy(bytes).into_owned()
}

/// `std::str::from_utf8`: the text that the bytes encode, and nothing where
/// they are not UTF-8.
#[verifier::external_body]
pub(crate) fn from_utf8(bytes: &[u8]) -> (r: Option<&str>)
    ensures
        match r {
            Some(s) => vstd::utf8::valid_utf8(bytes@) && s@ == vstd::utf8::decode_utf8(bytes@),
            None => !vstd::utf8::valid_utf8(bytes@),
        },
{
    std::str::from_utf8(bytes).ok()
}

// ---------------------------------------------------------------------
// Parts of texts

/// Whether a text starts with another.
pub open spec fn has_prefix(s: Seq<char>, prefix: Seq<char>) -> bool {
    s.len() >= prefix.len() && s.take(prefix.len() as int) == prefix
}

/// Whether a text ends with another.
pub open spec fn has_suffix(s: Seq<char>, suffix: Seq<char>) -> bool {
    s.len() >= suffix.len() && s.skip(s.len() - suffix.len()) == suffix
}

/// Whether a text holds another at a place.
pub open spec fn holds_at(s: Seq<char>, part: Seq<char>, i: int) -> bool {
    0 <= i && i + part.len() <= s.len() && s.subrange(i, i + part.len()) == part
}

/// Whether a text holds another.
pub open spec fn holds(s: Seq<char>, part: Seq<char>) -> bool {
    exists|i: int| #[trigger] holds_at(s, part, i)
}

/// Whether the characters of `v` from `from` on start with those of `p`.
pub fn matches_at(v: &[char], from: usize, p: &[char]) -> (r: bool)
    ensures
        r == holds_at(v@, p@, from as int),
{
    if from > v.len() || v.len() - from < p.len() {
        return false;
    }
    let mut i: usize = 0;
    while i < p.len()
        invariant
            i <= p@.len(),
            from + p@.len() <= v@.len(),
            v@.len() <= usize::MAX,
            forall|j: int| 0 <= j < i ==> v@[from + j] == p@[j],
        decreases p@.len() - i,
    {
        if v[from + i] != p[i] {
            proof {
                assert(v@.subrange(from as int, from + p@.len())[i as int] != p@[i as int]);
            }
            return false;
        }
        i += 1;
    }
    proof {
        assert(v@.subrange(from as int, from + p@.len()) =~= p@);
    }
    true
}

/// Whether a text starts with another.
pub fn starts_with(s: &str, prefix: &str) -> (r: bool)
    ensures
        r == has_prefix(s@, prefix@),
{
    let v = chars_of(s);
    let p = chars_of(prefix);
    proof {
        if s@.len() >= prefix@.len() {
            assert(s@.subrange(0, prefix@.len() as int) =~= s@.take(prefix@.len() as int));
        }
    }
    matches_at(v.as_slice(), 0, p.as_slice())
}

/// Whether a text ends with another.
pub fn ends_with(s: &str, suffix: &str) -> (r: bool)
    ensures
        r == has_suffix(s@, suffix@),
{
    let v = chars_of(s);
    let p = chars_of(suffix);
    if p.len() > v.len() {
        return false;
    }
    let from: usize = v.len() - p.len();
    proof {
        assert(s@.subrange(from as int, from + suffix@.len()) =~= s@.skip(from as int));
    }
    matches_at(v.as_slice(), from, p.as_slice())
}

/// Whether a text holds another.
pub fn contains(s: &str, part: &str) -> (r: bool)
    ensures
        r == holds(s@, part@),
{
    let v = chars_of(s);
    let p = chars_of(part);
    let mut i: usize = 0;
    while i < v.len()
        invariant
            i <= v@.len(),
            v@ == s@,
            p@ == part@,
            forall|j: int| 0 <= j < i ==> !#[trigger] holds_at(s@, part@, j),
        decreases v@.len() - i,
    {
        if matches_at(v.as_slice(), i, p.as_slice()) {
            return true;
        }
        i += 1;
    }
    let last = matches_at(v.as_slice(), i, p.as_slice());
    proof {
        assert forall|j: int| #[trigger] holds_at(s@, part@, j) implies last by {
            assert(j >= i);
        }
    }
    last
}

/// A text without a suffix it may have.
pub open spec fn strip_suffix(s: Seq<char>, suffix: Seq<char>) -> Seq<char> {
    if has_suffix(s, suffix) {
        s.take(s.len() - suffix.len())
    } else {
        s
    }
}

/// A text without a suffix it may have.
pub fn without_suffix(s: &str, suffix: &str) -> (r: String)
    ensures
        r@ == strip_suffix(s@, suffix@),
{
    if !ends_with(s, suffix) {
        return s.to_owned();
    }
    let v = chars_of(s);
    let p = chars_of(suffix);
    let end: usize = v.len() - p.len();
    proof {
        assert(s@.subrange(0, end as int) =~= s@.take(end as int));
    }
    substring(v.as_slice(), 0, end)
}

/// A text without a prefix it may have.
pub open spec fn strip_prefix(s: Seq<char>, prefix: Seq<char>) -> Seq<char> {
    if has_prefix(s, prefix) {
        s.skip(prefix.len() as int)
    } else {
        s
    }
}

/// A text without a prefix it may have.
pub fn without_prefix(s: &str, prefix: &str) -> (r: String)
    ensures
        r@ == strip_prefix(s@, prefix@),
{
    if !starts_with(s, prefix) {
        return s.to_owned();
    }
    let v = chars_of(s);
    let p = chars_of(prefix);
    proof {
        assert(s@.subrange(p@.len() as int, s@.len() as int) =~= s@.skip(p@.len() as int));
    }
    substring(v.as_slice(), p.len(), v.len())
}

/// The parts of a text between the places of a character.
pub open spec fn split_spec(s: Seq<char>, c: char) -> Seq<Seq<char>>
    decreases s.len(),
{
    match find_char(s, c) {
        Some(i) => if 0 <= i < s.len() {
            seq![s.take(i)] + split_spec(s.skip(i + 1), c)
        } else {
            seq![s]
        },
        None => seq![s],
    }
}

/// What a list of texts says.
pub open spec fn texts(v: Seq<String>) -> Seq<Seq<char>> {
    v.map_values(|s: String| s@)
}

/// The parts of a text between the places of a character.
pub fn split(s: &str, c: char) -> (r: Vec<String>)
    ensures
        texts(r@) == split_spec(s@, c),
        r@.len() > 0,
{
    let v = chars_of(s);
    let size: usize = v.len();
    let mut out: Vec<String> = Vec::new();
    let mut from: usize = 0;
    proof {
        assert(s@.skip(0) =~= s@);
        assert(texts(out@) + split_spec(s@, c) =~= split_spec(s@, c));
    }
    loop
        invariant
            from <= size,
            size == v@.len(),
            v@ == s@,
            texts(out@) + split_spec(s@.skip(from as int), c) == split_spec(s@, c),
        decreases v@.len() - from,
    {
        let rest = slice_subrange_from(v.as_slice(), from);
        let ghost before = texts(out@);
        proof {
            lemma_find_char(s@.skip(from as int), c);
        }
        match position(rest, c) {
            Some(i) => {
                let part = substring(rest, 0, i);
                let ghost seen = part@;
                out.push(part);
                proof {
                    assert(rest@.subrange(0, i as int) =~= rest@.take(i as int));
                    assert(texts(out@) =~= before.push(seen));
                    assert(rest@.skip(i + 1) =~= s@.skip(from + i + 1));
                    let tail = split_spec(s@.skip(from + i + 1), c);
                    assert(before.push(seen) + tail =~= before + (seq![seen] + tail));
                }
                from = from + i + 1;
            },
            None => {
                let part = string_of(rest);
                let ghost seen = part@;
                out.push(part);
                proof {
                    assert(texts(out@) =~= before.push(seen));
                    assert(before.push(seen) =~= before + seq![seen]);
                }
                return out;
            },
        }
    }
}

/// The characters of `v` from `from` on.
pub fn slice_subrange_from(v: &[char], from: usize) -> (r: &[char])
    requires
        from <= v@.len(),
    ensures
        r@ == v@.skip(from as int),
{
    proof {
        assert(v@.subrange(from as int, v@.len() as int) =~= v@.skip(from as int));
    }
    vstd::slice::slice_subrange(v, from, v.len())
}

/// How many characters a text starts with that are not white space.
pub open spec fn word_len(s: Seq<char>) -> nat
    decreases s.len(),
{
    if s.len() == 0 || is_white_space(s[0]) {
        0
    } else {
        1 + word_len(s.skip(1))
    }
}

/// A word is no longer than the text it starts.
pub proof fn lemma_word_len(s: Seq<char>)
    ensures
        word_len(s) <= s.len(),
    decreases s.len(),
{
    if s.len() > 0 && !is_white_space(s[0]) {
        lemma_word_len(s.skip(1));
    }
}

/// The runs of a text that hold no white space.
pub open spec fn words_spec(s: Seq<char>) -> Seq<Seq<char>>
    decreases s.len(),
{
    if s.len() == 0 {
        Seq::empty()
    } else if is_white_space(s[0]) {
        words_spec(s.skip(1))
    } else {
        proof {
            lemma_word_len(s);
        }
        seq![s.take(word_len(s) as int)] + words_spec(s.skip(word_len(s) as int))
    }
}

/// The runs of a text that hold no white space.
pub fn words(s: &str) -> (r: Vec<String>)
    ensures
        texts(r@) == words_spec(s@),
{
    let v = chars_of(s);
    let mut out: Vec<String> = Vec::new();
    let mut i: usize = 0;
    proof {
        assert(s@.skip(0) =~= s@);
        assert(texts(out@) + words_spec(s@) =~= words_spec(s@));
    }
    while i < v.len()
        invariant
            i <= v@.len(),
            v@ == s@,
            texts(out@) + words_spec(s@.skip(i as int)) == words_spec(s@),
        decreases v@.len() - i,
    {
        let ghost rest = s@.skip(i as int);
        let ghost before = texts(out@);
        if white_space(v[i]) {
            proof {
                assert(rest.skip(1) =~= s@.skip(i + 1));
            }
            i += 1;
        } else {
            let start: usize = i;
            while i < v.len() && !white_space(v[i])
                invariant
                    start <= i <= v@.len(),
                    v@ == s@,
                    rest == s@.skip(start as int),
                    word_len(rest) == (i - start) + word_len(s@.skip(i as int)),
                decreases v@.len() - i,
            {
                proof {
                    assert(s@.skip(i as int).skip(1) =~= s@.skip(i + 1));
                }
                i += 1;
            }
            let word = substring(v.as_slice(), start, i);
            let ghost seen = word@;
            out.push(word);
            proof {
                lemma_word_len(rest);
                assert(word_len(s@.skip(i as int)) == 0);
                assert(seen =~= rest.take(word_len(rest) as int));
                assert(rest.skip(word_len(rest) as int) =~= s@.skip(i as int));
                assert(texts(out@) =~= before.push(seen));
                let tail = words_spec(s@.skip(i as int));
                assert(before.push(seen) + tail =~= before + (seq![seen] + tail));
            }
        }
    }
    proof {
        assert(s@.skip(i as int) =~= Seq::empty());
        assert(texts(out@) + Seq::<Seq<char>>::empty() =~= texts(out@));
    }
    out
}

/// Texts with another between each two.
pub open spec fn join_spec(parts: Seq<Seq<char>>, between: Seq<char>) -> Seq<char>
    decreases parts.len(),
{
    if parts.len() == 0 {
        Seq::empty()
    } else if parts.len() == 1 {
        parts[0]
    } else {
        join_spec(parts.drop_last(), between) + between + parts.last()
    }
}

/// The first `n` texts of a list with another between each two.
pub fn join_first(parts: &Vec<String>, n: usize, between: &str) -> (r: String)
    requires
        n <= parts@.len(),
    ensures
        r@ == join_spec(texts(parts@).take(n as int), between@),
{
    let mut out = String::new();
    let ghost all = texts(parts@);
    let mut i: usize = 0;
    while i < n
        invariant
            i <= n <= parts@.len(),
            all == texts(parts@),
            out@ == join_spec(all.take(i as int), between@),
        decreases n - i,
    {
        proof {
            assert(all.take(i + 1).drop_last() =~= all.take(i as int));
            assert(all.take(i + 1).last() == parts@[i as int]@);
        }
        if i > 0 {
            out.push_str(between);
        }
        out.push_str(parts[i].as_str());
        proof {
            if i == 0 {
                assert(out@ =~= parts@[0]@);
            }
        }
        i += 1;
    }
    out
}

/// How many bytes a character takes in UTF-8.
pub open spec fn utf8_len(c: char) -> nat {
    if (c as u32) < 0x80 {
        1
    } else if (c as u32) < 0x800 {
        2
    } else if (c as u32) < 0x10000 {
        3
    } else {
        4
    }
}

/// The character that ends at a byte of a text's UTF-8.
pub open spec fn char_before(s: Seq<char>, at: nat) -> Option<char>
    decreases s.len(),
{
    if s.len() == 0 || at < utf8_len(s[0]) {
        None
    } else if at == utf8_len(s[0]) {
        Some(s[0])
    } else {
        char_before(s.skip(1), (at - utf8_len(s[0])) as nat)
    }
}

/// Whether a byte of a text's UTF-8 is where a character starts, or where
/// the text ends.
pub open spec fn is_boundary(s: Seq<char>, at: nat) -> bool {
    at == 0 || char_before(s, at) is Some
}

/// The character that ends at a byte of a text's UTF-8.
pub fn char_ending_at(s: &str, at: usize) -> (r: Option<char>)
    ensures
        r == char_before(s@, at as nat),
{
    let v = chars_of(s);
    let mut left: usize = at;
    let mut i: usize = 0;
    proof {
        assert(s@.skip(0) =~= s@);
    }
    while i < v.len()
        invariant
            i <= v@.len(),
            v@ == s@,
            char_before(s@, at as nat) == char_before(s@.skip(i as int), left as nat),
        decreases v@.len() - i,
    {
        let c: char = v[i];
        proof {
            assert(s@.skip(i as int)[0] == c);
            assert(s@.skip(i as int).skip(1) =~= s@.skip(i + 1));
        }
        let n: usize = if (c as u32) < 0x80 {
            1
        } else if (c as u32) < 0x800 {
            2
        } else if (c as u32) < 0x10000 {
            3
        } else {
            4
        };
        if left < n {
            return None;
        }
        if left == n {
            return Some(c);
        }
        left -= n;
        i += 1;
    }
    None
}

/// A whole number in decimal, with a `-` where it is negative.
pub open spec fn signed_dec(n: int) -> Seq<char> {
    if n < 0 {
        "-"@ + dec((-n) as nat)
    } else {
        dec(n as nat)
    }
}

/// A whole number in decimal.
pub fn signed_decimal(n: i32) -> (s: String)
    ensures
        s@ == signed_dec(n as int),
{
    if n < 0 {
        let positive: u64 = (-(n as i64)) as u64;
        cat2("-", decimal(positive).as_str())
    } else {
        decimal(n as u64)
    }
}

/// A letter of ASCII in lower case; any other character as it is.
pub open spec fn ascii_lower(c: char) -> char {
    if 'A' <= c && c <= 'Z' {
        (c as int + 32) as char
    } else {
        c
    }
}

/// A text with the letters of ASCII in lower case.
pub open spec fn ascii_lowered(s: Seq<char>) -> Seq<char> {
    s.map_values(|c: char| ascii_lower(c))
}

/// A letter of ASCII in lower case; any other character as it is.
pub fn lower_ascii(c: char) -> (r: char)
    ensures
        r == ascii_lower(c),
{
    if 'A' <= c && c <= 'Z' {
        (c as u8 + 32) as char
    } else {
        c
    }
}

/// Whether two texts are the same but for the case of the letters of ASCII.
pub fn same_ignoring_case(a: &str, b: &str) -> (r: bool)
    ensures
        r == (ascii_lowered(a@) == ascii_lowered(b@)),
{
    let x = chars_of(a);
    let y = chars_of(b);
    if x.len() != y.len() {
        proof {
            assert(ascii_lowered(a@).len() != ascii_lowered(b@).len());
        }
        return false;
    }
    let mut i: usize = 0;
    while i < x.len()
        invariant
            i <= x@.len(),
            x@.len() == y@.len(),
            x@ == a@,
            y@ == b@,
            forall|j: int| 0 <= j < i ==> ascii_lowered(a@)[j] == ascii_lowered(b@)[j],
        decreases x@.len() - i,
    {
        if lower_ascii(x[i]) != lower_ascii(y[i]) {
            proof {
                assert(ascii_lowered(a@)[i as int] != ascii_lowered(b@)[i as int]);
            }
            return false;
        }
        i += 1;
    }
    proof {
        assert(ascii_lowered(a@) =~= ascii_lowered(b@));
    }
    true
}

/// What `str::to_lowercase` makes of a text.
pub uninterp spec fn lowered(s: Seq<char>) -> Seq<char>;

/// `str::to_lowercase`: a text in lower case, as Unicode has it. Of a text
/// that is all ASCII, its letters in lower case.
#[verifier::external_body]
pub(crate) fn to_lowercase(s: &str) -> (r: String)
    ensures
        r@ == lowered(s@),
        vstd::utf8::is_ascii_chars(s@) ==> r@ == ascii_lowered(s@),
{
    s.to_lowercase()
}

// ---------------------------------------------------------------------
// Parts and words

/// Texts joined are the first of them, what stands between, and the rest
/// joined.
pub proof fn what_is_joined_starts_with_its_first(parts: Seq<Seq<char>>, between: Seq<char>)
    requires
        parts.len() >= 2,
    ensures
        join_spec(parts, between) == parts[0] + between + join_spec(parts.skip(1), between),
    decreases parts.len(),
{
    let front = parts.drop_last();
    let rest = parts.skip(1);
    assert(rest.drop_last() =~= front.skip(1));
    assert(rest.last() == parts.last());
    if parts.len() == 2 {
        assert(front.len() == 1 && rest.len() == 1);
        assert(join_spec(front, between) == parts[0]);
        assert(join_spec(rest, between) == parts[1]);
    } else {
        what_is_joined_starts_with_its_first(front, between);
        assert(join_spec(rest, between) == join_spec(rest.drop_last(), between) + between
            + rest.last());
        assert(join_spec(parts, between) =~= parts[0] + between + join_spec(rest, between));
    }
}

/// Where a text holds no `c`, what it starts with a `c` behind it is split
/// there first.
proof fn lemma_split_behind(s: Seq<char>, c: char, tail: Seq<char>)
    requires
        forall|i: int| 0 <= i < s.len() ==> s[i] != c,
    ensures
        split_spec(s + seq![c] + tail, c) == seq![s] + split_spec(tail, c),
        split_spec(s, c) == seq![s],
{
    let t = s + seq![c] + tail;
    lemma_find_char(t, c);
    lemma_find_char(s, c);
    assert(t[s.len() as int] == c);
    let at = find_char(t, c)->0;
    assert(at == s.len()) by {
        if at < s.len() {
            assert(t[at] == s[at]);
        }
    }
    assert(t.take(at) =~= s);
    assert(t.skip(at + 1) =~= tail);
}

/// Parts that do not hold a character, joined by it and split at it, are
/// the parts again.
pub proof fn what_is_joined_is_split_again(parts: Seq<Seq<char>>, c: char)
    requires
        parts.len() > 0,
        forall|k: int, i: int|
            0 <= k < parts.len() && 0 <= i < parts[k].len() ==> #[trigger] parts[k][i] != c,
    ensures
        split_spec(join_spec(parts, seq![c]), c) == parts,
    decreases parts.len(),
{
    let rest = parts.skip(1);
    lemma_split_behind(parts[0], c, join_spec(rest, seq![c]));
    if parts.len() == 1 {
        assert(seq![parts[0]] =~= parts);
    } else {
        what_is_joined_starts_with_its_first(parts, seq![c]);
        assert forall|k: int, i: int| 0 <= k < rest.len() && 0 <= i < rest[k].len() implies
            #[trigger] rest[k][i] != c by {
            assert(parts[k + 1][i] != c);
        }
        what_is_joined_is_split_again(rest, c);
        assert(seq![parts[0]] + rest =~= parts);
    }
}

/// The parts of a text between the places of a character, joined by it, are
/// the text again, and none of them holds it.
pub proof fn what_is_split_is_joined_again(s: Seq<char>, c: char)
    ensures
        split_spec(s, c).len() > 0,
        join_spec(split_spec(s, c), seq![c]) == s,
        forall|k: int, i: int|
            0 <= k < split_spec(s, c).len() && 0 <= i < split_spec(s, c)[k].len()
                ==> #[trigger] split_spec(s, c)[k][i] != c,
    decreases s.len(),
{
    let parts = split_spec(s, c);
    lemma_find_char(s, c);
    match find_char(s, c) {
        Some(at) => {
            let tail = s.skip(at + 1);
            what_is_split_is_joined_again(tail, c);
            let rest = split_spec(tail, c);
            assert(parts.skip(1) =~= rest);
            what_is_joined_starts_with_its_first(parts, seq![c]);
            assert(join_spec(parts, seq![c]) =~= s);
            assert forall|k: int, i: int| 0 <= k < parts.len() && 0 <= i < parts[k].len() implies
                #[trigger] parts[k][i] != c by {
                if k > 0 {
                    assert(rest[k - 1][i] != c);
                }
            }
        },
        None => {
            assert(join_spec(parts, seq![c]) == s);
        },
    }
}

/// A text without white space is one word, and white space behind it ends
/// it.
proof fn lemma_words_behind(s: Seq<char>, c: char, tail: Seq<char>)
    requires
        s.len() > 0,
        forall|i: int| 0 <= i < s.len() ==> !is_white_space(#[trigger] s[i]),
        is_white_space(c),
    ensures
        words_spec(s + seq![c] + tail) == seq![s] + words_spec(tail),
        words_spec(s) == seq![s],
{
    let t = s + seq![c] + tail;
    lemma_word_run(t, s.len() as int);
    lemma_word_run(s, s.len() as int);
    assert(!is_white_space(s[0]));
    assert(t[0] == s[0]);
    assert(t.take(s.len() as int) =~= s);
    assert(t.skip(s.len() as int) =~= seq![c] + tail);
    assert((seq![c] + tail).skip(1) =~= tail);
    assert((seq![c] + tail)[0] == c);
    assert(words_spec(seq![c] + tail) == words_spec(tail));
    assert(words_spec(Seq::<char>::empty()) =~= Seq::empty());
    assert(s.take(s.len() as int) =~= s);
    assert(s.skip(s.len() as int) =~= Seq::empty());
    assert(seq![s] + Seq::<Seq<char>>::empty() =~= seq![s]);
}

proof fn lemma_word_run(s: Seq<char>, n: int)
    requires
        0 <= n <= s.len(),
        forall|i: int| 0 <= i < n ==> !is_white_space(#[trigger] s[i]),
        n < s.len() ==> is_white_space(s[n]),
    ensures
        word_len(s) == n,
    decreases n,
{
    if n > 0 {
        assert(!is_white_space(s[0]));
        let t = s.skip(1);
        assert forall|i: int| 0 <= i < n - 1 implies !is_white_space(#[trigger] t[i]) by {
            assert(t[i] == s[i + 1]);
        }
        lemma_word_run(t, n - 1);
    }
}

/// Words joined by white space are the words of the text they make.
pub proof fn words_joined_are_the_words_again(parts: Seq<Seq<char>>, c: char)
    requires
        is_white_space(c),
        forall|k: int| 0 <= k < parts.len() ==> (#[trigger] parts[k]).len() > 0,
        forall|k: int, i: int|
            0 <= k < parts.len() && 0 <= i < parts[k].len() ==> !is_white_space(
                #[trigger] parts[k][i],
            ),
    ensures
        words_spec(join_spec(parts, seq![c])) == parts,
    decreases parts.len(),
{
    if parts.len() == 0 {
        assert(words_spec(join_spec(parts, seq![c])) =~= parts);
    } else {
        let rest = parts.skip(1);
        assert forall|i: int| 0 <= i < parts[0].len() implies !is_white_space(
            #[trigger] parts[0][i],
        ) by {
        }
        lemma_words_behind(parts[0], c, join_spec(rest, seq![c]));
        if parts.len() == 1 {
            assert(seq![parts[0]] =~= parts);
        } else {
            what_is_joined_starts_with_its_first(parts, seq![c]);
            assert forall|k: int| 0 <= k < rest.len() implies (#[trigger] rest[k]).len() > 0 by {
                assert(parts[k + 1].len() > 0);
            }
            assert forall|k: int, i: int| 0 <= k < rest.len() && 0 <= i < rest[k].len() implies
                !is_white_space(#[trigger] rest[k][i]) by {
                assert(!is_white_space(parts[k + 1][i]));
            }
            words_joined_are_the_words_again(rest, c);
            assert(seq![parts[0]] + rest =~= parts);
        }
    }
}

/// The character that ends at a byte of a text's UTF-8 is the last of what
/// that many bytes write.
pub proof fn a_character_ends_where_its_bytes_end(before: Seq<char>, c: char, behind: Seq<char>)
    ensures
        char_before(before + seq![c] + behind, vstd::utf8::encode_utf8(before + seq![c]).len())
            == Some(c),
    decreases before.len(),
{
    let s = before + seq![c] + behind;
    let up = before + seq![c];
    assert(up[0] == s[0]);
    vstd::utf8::char_is_scalar(s[0]);
    assert(utf8_len(s[0]) == vstd::utf8::encode_scalar(s[0] as u32).len());
    if before.len() == 0 {
        assert(up.drop_first() =~= Seq::empty());
        assert(vstd::utf8::encode_utf8(up.drop_first()).len() == 0);
    } else {
        let rest = before.skip(1);
        assert(up.drop_first() =~= rest + seq![c]);
        assert(s.skip(1) =~= rest + seq![c] + behind);
        a_character_ends_where_its_bytes_end(rest, c, behind);
        assert(vstd::utf8::encode_utf8(rest + seq![c]).len() > 0) by {
            assert((rest + seq![c]).len() > 0);
        }
    }
}

/// Code points that take one unit of UTF-16 each are one character each.
pub proof fn lemma_plain_units(units: Seq<u16>)
    requires
        forall|i: int| 0 <= i < units.len() ==> !(0xd800 <= #[trigger] units[i] <= 0xdfff),
    ensures
        utf16_text(units).len() == units.len(),
        forall|i: int|
            0 <= i < units.len() ==> #[trigger] utf16_text(units)[i] as int == units[i] as int,
    decreases units.len(),
{
    if units.len() > 0 {
        let rest = units.skip(1);
        assert(!(0xd800 <= units[0] <= 0xdfff));
        assert forall|i: int| 0 <= i < rest.len() implies !(0xd800 <= #[trigger] rest[i]
            <= 0xdfff) by {
            assert(rest[i] == units[i + 1]);
        }
        lemma_plain_units(rest);
        lemma_plain_unit(units[0]);
        assert forall|i: int| 0 <= i < units.len() implies #[trigger] utf16_text(units)[i] as int
            == units[i] as int by {
            if i > 0 {
                assert(utf16_text(units)[i] == utf16_text(rest)[i - 1]);
                assert(rest[i - 1] == units[i]);
            }
        }
    }
}

proof fn lemma_plain_unit(u: u16)
    requires
        !(0xd800 <= u <= 0xdfff),
    ensures
        (u as char) as int == u as int,
{
}

/// The units of a text in UTF-16: one for a code point below 0x10000, and a
/// high and a low surrogate for one above.
pub open spec fn utf16_units(s: Seq<char>) -> Seq<u16>
    decreases s.len(),
{
    if s.len() == 0 {
        Seq::empty()
    } else {
        let c = s[0] as int;
        (if c < 0x10000 {
            seq![c as u16]
        } else {
            seq![
                (0xd800 + (c - 0x10000) / 0x400) as u16,
                (0xdc00 + (c - 0x10000) % 0x400) as u16,
            ]
        }) + utf16_units(s.skip(1))
    }
}

/// A text written in UTF-16 is read back.
pub proof fn what_is_written_in_utf16_is_read_back(s: Seq<char>)
    ensures
        utf16_text(utf16_units(s)) == s,
    decreases s.len(),
{
    if s.len() > 0 {
        let rest = s.skip(1);
        what_is_written_in_utf16_is_read_back(rest);
        lemma_units_read(s[0], utf16_units(rest));
        assert(seq![s[0]] + rest =~= s);
    } else {
        assert(utf16_text(utf16_units(s)) =~= s);
    }
}

proof fn lemma_units_read(c: char, behind: Seq<u16>)
    ensures
        utf16_text(
            (if (c as int) < 0x10000 {
                seq![(c as int) as u16]
            } else {
                seq![
                    (0xd800 + (c as int - 0x10000) / 0x400) as u16,
                    (0xdc00 + (c as int - 0x10000) % 0x400) as u16,
                ]
            }) + behind,
        ) == seq![c] + utf16_text(behind),
{
    if (c as int) < 0x10000 {
        let units = seq![(c as int) as u16] + behind;
        assert(units.skip(1) =~= behind);
        assert(units[0] as int == c as int);
        assert(units[0] as char == c);
    } else {
        let n = c as int - 0x10000;
        let units = seq![(0xd800 + n / 0x400) as u16, (0xdc00 + n % 0x400) as u16] + behind;
        assert(units.skip(2) =~= behind);
        assert(units[0] == 0xd800 + n / 0x400);
        assert(units[1] == 0xdc00 + n % 0x400);
        assert(0x10000 + (units[0] - 0xd800) * 0x400 + (units[1] - 0xdc00) == c as int);
    }
}

/// White space before and behind a text is trimmed, and nothing of the text.
pub proof fn white_space_around_is_trimmed(a: Seq<char>, s: Seq<char>, b: Seq<char>)
    requires
        forall|i: int| 0 <= i < a.len() ==> is_white_space(#[trigger] a[i]),
        forall|i: int| 0 <= i < b.len() ==> is_white_space(#[trigger] b[i]),
        s.len() > 0 ==> !is_white_space(s[0]) && !is_white_space(s.last()),
    ensures
        trim(a + s + b) == s,
        trim_end(s + b) == s,
        s.len() > 0 ==> trim_start(a + s) == s,
{
    lemma_trim_start(a, s + b);
    lemma_trim_end(s, b);
    assert(a + s + b =~= a + (s + b));
    if s.len() == 0 {
        assert(a + s + b =~= a + b);
        assert forall|i: int| 0 <= i < (a + b).len() implies is_white_space(
            #[trigger] (a + b)[i],
        ) by {
            if i >= a.len() {
                assert((a + b)[i] == b[i - a.len()]);
            }
        }
        lemma_trim_start(a + b, Seq::empty());
        lemma_trim_end(Seq::empty(), a + b);
        assert(a + b + Seq::<char>::empty() =~= a + b);
        assert(Seq::<char>::empty() + (a + b) =~= a + b);
        assert(trim_start(a + b) =~= Seq::empty());
        assert(trim_end(Seq::<char>::empty()) =~= Seq::empty());
    } else {
        assert((s + b)[0] == s[0]);
        lemma_trim_start(a, s);
        assert(trim_start(a + s) == s);
    }
}

proof fn lemma_trim_start(a: Seq<char>, s: Seq<char>)
    requires
        forall|i: int| 0 <= i < a.len() ==> is_white_space(#[trigger] a[i]),
    ensures
        s.len() == 0 || !is_white_space(s[0]) ==> trim_start(a + s) == s,
    decreases a.len(),
{
    let t = a + s;
    if a.len() == 0 {
        assert(t =~= s);
    } else {
        assert(is_white_space(a[0]));
        assert(t[0] == a[0]);
        assert(t.drop_first() =~= a.drop_first() + s);
        assert forall|i: int| 0 <= i < a.drop_first().len() implies is_white_space(
            #[trigger] a.drop_first()[i],
        ) by {
            assert(is_white_space(a[i + 1]));
        }
        lemma_trim_start(a.drop_first(), s);
    }
}

proof fn lemma_trim_end(s: Seq<char>, b: Seq<char>)
    requires
        forall|i: int| 0 <= i < b.len() ==> is_white_space(#[trigger] b[i]),
    ensures
        s.len() == 0 || !is_white_space(s.last()) ==> trim_end(s + b) == s,
    decreases b.len(),
{
    let t = s + b;
    if b.len() == 0 {
        assert(t =~= s);
    } else {
        assert(is_white_space(b.last()));
        assert(t.last() == b.last());
        assert(t.drop_last() =~= s + b.drop_last());
        assert forall|i: int| 0 <= i < b.drop_last().len() implies is_white_space(
            #[trigger] b.drop_last()[i],
        ) by {
            assert(is_white_space(b[i]));
        }
        lemma_trim_end(s, b.drop_last());
    }
}

/// A number is written by its digits, the last of which is what is left of
/// ten times the others.
pub proof fn a_number_is_written_digit_by_digit(n: nat, d: nat)
    requires
        d < 10,
    ensures
        dec(d) == seq![(0x30 + d) as char],
        n > 0 ==> dec(10 * n + d) == dec(n).push((0x30 + d) as char),
        n > 0 ==> signed_dec(-(n as int)) == seq!['-'] + dec(n),
        signed_dec(n as int) == dec(n),
{
    reveal_strlit("-");
    assert("-"@ =~= seq!['-']);
}

/// White space is what Unicode calls so.
pub proof fn white_space_is_what_unicode_calls_so(c: char)
    ensures
        c == ' ' || c == '\t' || c == '\n' || c == '\r' || c as int == 0x0b || c as int == 0x0c
            ==> is_white_space(c),
        0x21 <= c as int <= 0x7e || c as int <= 8 || 0x0e <= c as int <= 0x1f
            ==> !is_white_space(c),
        c as int == 0x85 || c as int == 0xa0 || c as int == 0x1680 || 0x2000 <= c as int <= 0x200a
            || c as int == 0x2028 || c as int == 0x2029 || c as int == 0x202f || c as int == 0x205f
            || c as int == 0x3000 ==> is_white_space(c),
{
}

} // verus!
