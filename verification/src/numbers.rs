//! Numbers written in decimal.
use crate::text;
use vstd::prelude::*;

verus! {

/// Whether a character is one of the ten decimal digits.
pub open spec fn is_digit(c: char) -> bool {
    '0' <= c && c <= '9'
}

/// Whether a text is one digit or more, and nothing else.
pub open spec fn all_digits(s: Seq<char>) -> bool {
    s.len() > 0 && forall|i: int| 0 <= i < s.len() ==> is_digit(#[trigger] s[i])
}

/// The number that a run of digits writes, the most significant first.
pub open spec fn value(s: Seq<char>) -> nat
    decreases s.len(),
{
    if s.len() == 0 {
        0
    } else {
        value(s.drop_last()) * 10 + (s.last() as int - '0' as int) as nat
    }
}

/// The number no greater than `max` that a text writes: digits, with a `+`
/// before them or not.
pub open spec fn unsigned(s: Seq<char>, max: nat) -> Option<nat> {
    let digits = if s.len() > 0 && s[0] == '+' {
        s.skip(1)
    } else {
        s
    };
    if all_digits(digits) && value(digits) <= max {
        Some(value(digits))
    } else {
        None
    }
}

/// The number between `min` and `max` that a text writes: digits, with a `+`
/// or a `-` before them or not.
pub open spec fn signed(s: Seq<char>, min: int, max: int) -> Option<int> {
    if s.len() > 0 && s[0] == '-' {
        if all_digits(s.skip(1)) && -(value(s.skip(1)) as int) >= min {
            Some(-(value(s.skip(1)) as int))
        } else {
            None
        }
    } else {
        match unsigned(s, max as nat) {
            Some(n) => Some(n as int),
            None => None,
        }
    }
}

proof fn lemma_value_grows(s: Seq<char>, k: int)
    requires
        0 <= k <= s.len(),
        forall|i: int| 0 <= i < s.len() ==> is_digit(#[trigger] s[i]),
    ensures
        value(s.take(k)) <= value(s),
    decreases s.len(),
{
    if k < s.len() {
        let t = s.drop_last();
        assert(t.take(k) =~= s.take(k));
        lemma_value_grows(t, k);
    } else {
        assert(s.take(k) =~= s);
    }
}

/// The number no greater than `max` that the digits of `v` from `from` on
/// write.
fn digits_from(v: &[char], from: usize, max: u64) -> (r: Option<u64>)
    requires
        from <= v@.len(),
    ensures
        match r {
            Some(n) => all_digits(v@.skip(from as int)) && value(v@.skip(from as int)) == n && n
                <= max,
            None => !all_digits(v@.skip(from as int)) || value(v@.skip(from as int)) > max,
        },
{
    let ghost s = v@.skip(from as int);
    if from == v.len() {
        return None;
    }
    let mut n: u64 = 0;
    let mut i: usize = from;
    while i < v.len()
        invariant
            from <= i <= v@.len(),
            s == v@.skip(from as int),
            n == value(s.take(i - from)),
            n <= max,
            forall|j: int| 0 <= j < i - from ==> is_digit(#[trigger] s[j]),
        decreases v@.len() - i,
    {
        let c: char = v[i];
        if c < '0' || c > '9' {
            proof {
                assert(!is_digit(s[i - from]));
            }
            return None;
        }
        let ghost next = s.take(i - from + 1);
        proof {
            assert(next.drop_last() =~= s.take(i - from));
            assert(next.last() == c);
        }
        let d: u64 = c as u64 - 48;
        let grown: Option<u64> = match n.checked_mul(10) {
            Some(m) => m.checked_add(d),
            None => None,
        };
        match grown {
            Some(m) if m <= max => {
                n = m;
            },
            _ => {
                proof {
                    assert(value(next) > max);
                    if all_digits(s) {
                        lemma_value_grows(s, i - from + 1);
                    }
                }
                return None;
            },
        }
        i += 1;
    }
    proof {
        assert(s.take(s.len() as int) =~= s);
    }
    Some(n)
}

/// The number no greater than `max` that a text writes.
pub fn parse_unsigned(v: &[char], max: u64) -> (r: Option<u64>)
    ensures
        match r {
            Some(n) => unsigned(v@, max as nat) == Some(n as nat),
            None => unsigned(v@, max as nat) is None,
        },
{
    proof {
        assert(v@.skip(0) =~= v@);
    }
    if v.len() > 0 && v[0] == '+' {
        digits_from(v, 1, max)
    } else {
        digits_from(v, 0, max)
    }
}

/// The number that a text writes, where it fits an `i64`.
pub fn parse_i64(v: &[char]) -> (r: Option<i64>)
    ensures
        match r {
            Some(n) => signed(v@, i64::MIN as int, i64::MAX as int) == Some(n as int),
            None => signed(v@, i64::MIN as int, i64::MAX as int) is None,
        },
{
    if v.len() > 0 && v[0] == '-' {
        match digits_from(v, 1, 0x8000_0000_0000_0000) {
            Some(n) => if n == 0x8000_0000_0000_0000 {
                Some(i64::MIN)
            } else {
                Some(-(n as i64))
            },
            None => None,
        }
    } else {
        match parse_unsigned(v, 0x7fff_ffff_ffff_ffff) {
            Some(n) => Some(n as i64),
            None => None,
        }
    }
}

/// The number that a text writes, where it fits an `i32`.
pub fn parse_i32(v: &[char]) -> (r: Option<i32>)
    ensures
        match r {
            Some(n) => signed(v@, i32::MIN as int, i32::MAX as int) == Some(n as int),
            None => signed(v@, i32::MIN as int, i32::MAX as int) is None,
        },
{
    if v.len() > 0 && v[0] == '-' {
        match digits_from(v, 1, 0x8000_0000) {
            Some(n) => if n == 0x8000_0000 {
                Some(i32::MIN)
            } else {
                Some(-(n as i32))
            },
            None => None,
        }
    } else {
        match parse_unsigned(v, 0x7fff_ffff) {
            Some(n) => Some(n as i32),
            None => None,
        }
    }
}

/// What a number is written as, read back, is the number.
pub proof fn a_number_written_is_read_back(n: nat)
    ensures
        all_digits(text::dec(n)),
        value(text::dec(n)) == n,
        unsigned(text::dec(n), n) == Some(n),
    decreases n,
{
    let s = text::dec(n);
    if n < 10 {
        assert(s.drop_last() =~= Seq::empty());
        assert(value(s.drop_last()) == 0);
        assert(s[0] == ('0' as int + n) as char);
    } else {
        a_number_written_is_read_back(n / 10);
        assert(s.drop_last() =~= text::dec(n / 10));
        assert forall|i: int| 0 <= i < s.len() implies is_digit(#[trigger] s[i]) by {
            if i < s.len() - 1 {
                assert(s[i] == text::dec(n / 10)[i]);
            }
        }
    }
    assert(is_digit(s[0]));
}

/// What a whole number is written as, with a `-` where it is negative, read
/// back between any bounds it lies in, is the number.
pub proof fn a_whole_number_written_is_read_back(n: int, min: int, max: int)
    requires
        min <= n <= max,
        0 <= max,
    ensures
        signed(text::signed_dec(n), min, max) == Some(n),
        n >= 0 ==> unsigned(text::dec(n as nat), max as nat) == Some(n as nat),
{
    reveal_strlit("-");
    if n < 0 {
        let digits = text::dec((-n) as nat);
        a_number_written_is_read_back((-n) as nat);
        assert(text::signed_dec(n).skip(1) =~= digits);
        assert(text::signed_dec(n)[0] == '-');
    } else {
        a_number_written_is_read_back(n as nat);
        assert(is_digit(text::dec(n as nat)[0]));
    }
}

/// What a text writes between two bounds lies between them.
pub proof fn lemma_signed_lies_between(s: Seq<char>, min: int, max: int)
    requires
        min <= 0 <= max,
    ensures
        signed(s, min, max) matches Some(n) ==> min <= n <= max,
{
}

/// A digit behind others makes ten times their number and itself.
pub proof fn a_digit_counts_ten_times_less_than_those_before(s: Seq<char>, d: char)
    requires
        is_digit(d),
    ensures
        value(s.push(d)) == 10 * value(s) + (d as int - 0x30),
        value(Seq::empty()) == 0,
{
    assert(s.push(d).drop_last() =~= s);
}

/// A number is read where it is digits, with a sign before them or not, and
/// lies between the bounds; with a `-` it is negative.
pub proof fn a_number_is_read_with_its_sign(s: Seq<char>, min: int, max: int)
    requires
        min <= 0 <= max,
        s.len() > 0,
        forall|i: int| 0 <= i < s.len() ==> '0' <= #[trigger] s[i] <= '9',
    ensures
        signed(s, min, max) == (if value(s) <= max {
            Some(value(s) as int)
        } else {
            None
        }),
        signed(seq!['+'] + s, min, max) == signed(s, min, max),
        signed(seq!['-'] + s, min, max) == (if -(value(s) as int) >= min {
            Some(-(value(s) as int))
        } else {
            None
        }),
        unsigned(s, max as nat) == (if value(s) <= max {
            Some(value(s))
        } else {
            None
        }),
        unsigned(seq!['+'] + s, max as nat) == unsigned(s, max as nat),
{
    assert forall|i: int| 0 <= i < s.len() implies is_digit(#[trigger] s[i]) by {
    }
    assert((seq!['+'] + s).skip(1) =~= s);
    assert((seq!['-'] + s).skip(1) =~= s);
    assert(is_digit(s[0]));
}

/// What is no digit makes a text no number, but for a sign at its start.
pub proof fn a_number_holds_digits_only(s: Seq<char>, i: int, min: int, max: int)
    requires
        0 <= i < s.len(),
        !('0' <= s[i] <= '9'),
        i > 0 || (s[0] != '+' && s[0] != '-'),
    ensures
        signed(s, min, max) is None,
        unsigned(s, max as nat) is None,
{
    assert(!is_digit(s[i]));
    if i > 0 {
        assert(s.skip(1)[i - 1] == s[i]);
    }
}

} // verus!
