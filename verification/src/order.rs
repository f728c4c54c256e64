//! Texts in the order of their characters.
use crate::text;
use crate::text::chars_of;
use vstd::prelude::*;

verus! {

/// Whether one text comes before another or is the same: by the first
/// character in which they differ, or by which ends first.
pub open spec fn at_most(a: Seq<char>, b: Seq<char>) -> bool
    decreases a.len(),
{
    if a.len() == 0 {
        true
    } else if b.len() == 0 {
        false
    } else if a[0] != b[0] {
        a[0] < b[0]
    } else {
        at_most(a.drop_first(), b.drop_first())
    }
}

/// Whether one text comes before another or is the same.
pub fn is_at_most(a: &str, b: &str) -> (r: bool)
    ensures
        r == at_most(a@, b@),
{
    let x = chars_of(a);
    let y = chars_of(b);
    let mut i: usize = 0;
    proof {
        assert(x@.skip(0) =~= x@);
        assert(y@.skip(0) =~= y@);
    }
    while i < x.len() && i < y.len()
        invariant
            i <= x@.len(),
            i <= y@.len(),
            x@ == a@,
            y@ == b@,
            at_most(a@, b@) == at_most(x@.skip(i as int), y@.skip(i as int)),
        decreases x@.len() - i,
    {
        proof {
            assert(x@.skip(i as int).drop_first() =~= x@.skip(i + 1));
            assert(y@.skip(i as int).drop_first() =~= y@.skip(i + 1));
        }
        if x[i] != y[i] {
            return x[i] < y[i];
        }
        i += 1;
    }
    i >= x.len()
}

/// Every text comes before itself or is the same.
pub proof fn lemma_reflexive(a: Seq<char>)
    ensures
        at_most(a, a),
    decreases a.len(),
{
    if a.len() > 0 {
        lemma_reflexive(a.drop_first());
    }
}

/// Of two texts one comes first.
pub proof fn lemma_total(a: Seq<char>, b: Seq<char>)
    ensures
        at_most(a, b) || at_most(b, a),
    decreases a.len(),
{
    if a.len() > 0 && b.len() > 0 && a[0] == b[0] {
        lemma_total(a.drop_first(), b.drop_first());
    }
}

/// What comes before what comes before a text comes before it.
pub proof fn lemma_transitive(a: Seq<char>, b: Seq<char>, c: Seq<char>)
    requires
        at_most(a, b),
        at_most(b, c),
    ensures
        at_most(a, c),
    decreases a.len(),
{
    if a.len() > 0 && b.len() > 0 && c.len() > 0 {
        if a[0] == b[0] && b[0] == c[0] {
            lemma_transitive(a.drop_first(), b.drop_first(), c.drop_first());
        }
    }
}

/// A text put where it belongs among texts that are in order: before the
/// first that it comes before.
pub open spec fn inserted(s: Seq<Seq<char>>, t: Seq<char>) -> Seq<Seq<char>>
    decreases s.len(),
{
    if s.len() == 0 {
        seq![t]
    } else if at_most(s.last(), t) {
        s.push(t)
    } else {
        inserted(s.drop_last(), t).push(s.last())
    }
}

/// The texts in order.
pub open spec fn ordered(s: Seq<Seq<char>>) -> Seq<Seq<char>>
    decreases s.len(),
{
    if s.len() == 0 {
        s
    } else {
        inserted(ordered(s.drop_last()), s.last())
    }
}

/// Whether texts are in order.
pub open spec fn is_ordered(s: Seq<Seq<char>>) -> bool {
    forall|i: int, j: int| 0 <= i < j < s.len() ==> at_most(#[trigger] s[i], #[trigger] s[j])
}

/// Putting a text where it belongs adds it and keeps the order.
pub proof fn lemma_inserted(s: Seq<Seq<char>>, t: Seq<char>)
    ensures
        inserted(s, t).to_multiset() == s.to_multiset().insert(t),
        inserted(s, t).len() == s.len() + 1,
        is_ordered(s) ==> is_ordered(inserted(s, t)),
        forall|i: int|
            0 <= i < s.len() + 1 ==> #[trigger] inserted(s, t)[i] == t || s.contains(
                inserted(s, t)[i],
            ),
    decreases s.len(),
{
    broadcast use vstd::seq_lib::group_to_multiset_ensures;

    if s.len() == 0 {
        assert(seq![t] =~= Seq::<Seq<char>>::empty().push(t));
        assert(s =~= Seq::<Seq<char>>::empty());
    } else if at_most(s.last(), t) {
        if is_ordered(s) {
            assert forall|i: int, j: int| 0 <= i < j < s.len() + 1 implies at_most(
                #[trigger] s.push(t)[i],
                #[trigger] s.push(t)[j],
            ) by {
                if j == s.len() && i < s.len() - 1 {
                    assert(at_most(s[i], s[s.len() - 1]));
                    lemma_transitive(s[i], s.last(), t);
                }
            }
        }
        assert forall|i: int| 0 <= i < s.len() + 1 implies #[trigger] s.push(t)[i] == t
            || s.contains(s.push(t)[i]) by {
            if i < s.len() {
                assert(s.contains(s[i]));
            }
        }
    } else {
        let front = s.drop_last();
        let put = inserted(front, t);
        lemma_inserted(front, t);
        assert(s =~= front.push(s.last()));
        assert(front.to_multiset().insert(t).insert(s.last()) =~= front.to_multiset().insert(
            s.last(),
        ).insert(t));
        let r = put.push(s.last());
        assert forall|i: int| 0 <= i < s.len() + 1 implies #[trigger] r[i] == t || s.contains(
            r[i],
        ) by {
            if i < s.len() {
                assert(put[i] == t || front.contains(put[i]));
                if front.contains(put[i]) {
                    let k = choose|k: int| 0 <= k < front.len() && front[k] == put[i];
                    assert(s[k] == put[i]);
                }
            } else {
                assert(s[s.len() - 1] == r[i]);
            }
        }
        if is_ordered(s) {
            assert(is_ordered(front)) by {
                assert forall|i: int, j: int| 0 <= i < j < front.len() implies at_most(
                    #[trigger] front[i],
                    #[trigger] front[j],
                ) by {
                    assert(front[i] == s[i] && front[j] == s[j]);
                }
            }
            lemma_total(s.last(), t);
            assert forall|i: int, j: int| 0 <= i < j < r.len() implies at_most(
                #[trigger] r[i],
                #[trigger] r[j],
            ) by {
                if j < put.len() {
                    assert(r[i] == put[i] && r[j] == put[j]);
                } else {
                    assert(put[i] == t || front.contains(put[i]));
                    if front.contains(put[i]) {
                        let k = choose|k: int| 0 <= k < front.len() && front[k] == put[i];
                        assert(at_most(s[k], s[s.len() - 1]));
                    }
                }
            }
        }
    }
}

/// Ordering keeps the texts, and puts them in order.
pub proof fn lemma_ordered(s: Seq<Seq<char>>)
    ensures
        is_ordered(ordered(s)),
        ordered(s).to_multiset() == s.to_multiset(),
        ordered(s).len() == s.len(),
    decreases s.len(),
{
    broadcast use vstd::seq_lib::group_to_multiset_ensures;

    if s.len() > 0 {
        lemma_ordered(s.drop_last());
        lemma_inserted(ordered(s.drop_last()), s.last());
        assert(s =~= s.drop_last().push(s.last()));
    }
}

/// Put a text where it belongs among texts that are in order.
fn insert(v: &mut Vec<String>, t: String)
    ensures
        text::texts(final(v)@) == inserted(text::texts(old(v)@), t@),
{
    let n: usize = v.len();
    let ghost before = text::texts(v@);
    let mut i: usize = n;
    proof {
        assert(before.take(n as int) =~= before);
        assert(before.skip(n as int) =~= Seq::<Seq<char>>::empty());
        assert(inserted(before, t@) =~= inserted(before, t@) + Seq::<Seq<char>>::empty());
    }
    while i > 0 && !is_at_most(v[i - 1].as_str(), t.as_str())
        invariant
            i <= n,
            n == v@.len(),
            before == text::texts(v@),
            inserted(before, t@) == inserted(before.take(i as int), t@) + before.skip(i as int),
        decreases i,
    {
        proof {
            let a = before.take(i as int);
            assert(a.last() == v@[i - 1]@);
            assert(a.drop_last() =~= before.take(i - 1));
            assert(inserted(a, t@) == inserted(before.take(i - 1), t@).push(a.last()));
            assert(inserted(before.take(i - 1), t@).push(a.last()) + before.skip(i as int)
                =~= inserted(before.take(i - 1), t@) + before.skip(i - 1));
        }
        i -= 1;
    }
    proof {
        let a = before.take(i as int);
        if i > 0 {
            assert(a.last() == v@[i - 1]@);
        }
        assert(inserted(a, t@) =~= a.push(t@));
    }
    let ghost added = t@;
    v.insert(i, t);
    proof {
        assert(text::texts(v@) =~= before.take(i as int).push(added) + before.skip(i as int));
    }
}

/// The texts in order.
pub fn sorted(v: Vec<String>) -> (r: Vec<String>)
    ensures
        text::texts(r@) == ordered(text::texts(v@)),
{
    let ghost all = text::texts(v@);
    let mut out: Vec<String> = Vec::new();
    let mut i: usize = 0;
    proof {
        assert(text::texts(out@) =~= ordered(all.take(0)));
    }
    while i < v.len()
        invariant
            i <= v@.len(),
            all == text::texts(v@),
            text::texts(out@) == ordered(all.take(i as int)),
        decreases v@.len() - i,
    {
        proof {
            assert(all.take(i + 1).drop_last() =~= all.take(i as int));
            assert(all.take(i + 1).last() == v@[i as int]@);
        }
        insert(&mut out, v[i].clone());
        i += 1;
    }
    proof {
        assert(all.take(all.len() as int) =~= all);
    }
    out
}

/// Of two texts that are alike up to a character, the one whose character
/// there is less comes first, whatever follows; and a text comes before what
/// it starts.
pub proof fn texts_are_ordered_by_their_first_difference(
    start: Seq<char>,
    a: char,
    rest_a: Seq<char>,
    b: char,
    rest_b: Seq<char>,
)
    requires
        a != b,
    ensures
        at_most(start + seq![a] + rest_a, start + seq![b] + rest_b) <==> (a as u32) < (b as u32),
        at_most(start, start + seq![a] + rest_a),
        !at_most(start + seq![a] + rest_a, start),
    decreases start.len(),
{
    let x = start + seq![a] + rest_a;
    let y = start + seq![b] + rest_b;
    if start.len() > 0 {
        let rest = start.skip(1);
        texts_are_ordered_by_their_first_difference(rest, a, rest_a, b, rest_b);
        assert(x.skip(1) =~= rest + seq![a] + rest_a);
        assert(y.skip(1) =~= rest + seq![b] + rest_b);
        assert(x[0] == start[0] && y[0] == start[0]);
    } else {
        assert(x[0] == a && y[0] == b);
    }
}

} // verus!
