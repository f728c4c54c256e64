//! Keyed sessions that go away when nobody has used them for a while.
//!
//! A session is created by one request and read by others, so it has to
//! outlive the request that made it, and nothing tells the server when the
//! player is done with it. [`Sessions`] gives a session a lifetime measured
//! from its last use: [`Sessions::get`] hands out a [`Lease`], a session with
//! a lease out is in use for as long as that is not given back, and the idle
//! clock starts when the last one is. Sessions idle for longer than the
//! timeout are removed by a sweep, which drops what they owned.
//!
//! Times are nanoseconds of a clock that only goes forward.
use crate::text;
use crate::text::same;
use dashmap::DashMap;
use vstd::prelude::*;

verus! {

// ---------------------------------------------------------------------
// The keys

/// A concurrent map.
#[verifier::external_type_specification]
#[verifier::external_body]
#[verifier::reject_recursive_types(K)]
#[verifier::reject_recursive_types(V)]
#[verifier::reject_recursive_types(S)]
pub struct ExDashMap<K, V, S>(DashMap<K, V, S>);

/// The keys there are, each with the number of its session.
pub uninterp spec fn keys(k: DashMap<String, u64>) -> Map<Seq<char>, u64>;

/// `DashMap::new`: a map that holds nothing.
#[verifier::external_body]
fn no_keys() -> (k: DashMap<String, u64>)
    ensures
        keys(k).dom() == Set::<Seq<char>>::empty(),
{
    DashMap::new()
}

/// `DashMap::insert`: the key holds the number from now on, whatever it held
/// before.
#[verifier::external_body]
fn put_key(k: &mut DashMap<String, u64>, key: String, id: u64)
    ensures
        keys(*final(k)) == keys(*old(k)).insert(key@, id),
{
    k.insert(key, id);
}

/// `DashMap::get`: the number a key holds, if it holds one.
#[verifier::external_body]
fn key_number(k: &DashMap<String, u64>, key: &str) -> (r: Option<u64>)
    ensures
        match r {
            Some(id) => keys(*k).contains_key(key@) && keys(*k)[key@] == id,
            None => !keys(*k).contains_key(key@),
        },
{
    k.get(key).map(|id| *id)
}

/// `DashMap::retain`: the keys whose number is among `kept` stay, with that
/// number, and the others go.
#[verifier::external_body]
fn keep_keys(k: &mut DashMap<String, u64>, kept: &Vec<u64>)
    ensures
        keys(*final(k)) == Map::new(
            |key: Seq<char>| keys(*old(k)).contains_key(key) && kept@.contains(keys(*old(k))[key]),
            |key: Seq<char>| keys(*old(k))[key],
        ),
{
    k.retain(|_, id| is_among(kept, *id));
}

/// `DashMap::len`: how many keys there are.
#[verifier::external_body]
fn key_count(k: &DashMap<String, u64>) -> (n: usize)
    ensures
        n == keys(*k).dom().len(),
{
    k.len()
}

/// `DashMap::is_empty`: whether there is no key.
#[verifier::external_body]
fn has_no_keys(k: &DashMap<String, u64>) -> (r: bool)
    ensures
        r == (keys(*k).dom() == Set::<Seq<char>>::empty()),
{
    k.is_empty()
}

/// Whether a number is among others.
fn is_among(kept: &Vec<u64>, id: u64) -> (r: bool)
    ensures
        r == kept@.contains(id),
{
    let mut i: usize = 0;
    while i < kept.len()
        invariant
            i <= kept@.len(),
            forall|j: int| 0 <= j < i ==> kept@[j] != id,
        decreases kept@.len() - i,
    {
        if kept[i] == id {
            return true;
        }
        i += 1;
    }
    false
}

// ---------------------------------------------------------------------
// The sessions

/// One session: what it owns, how many leases are out on it, and when it was
/// last used.
#[derive(Debug)]
struct Slot<T> {
    id: u64,
    key: String,
    value: T,
    leases: usize,
    last_used: u64,
}

/// A session that is in use until this is given back.
#[derive(Debug)]
pub struct Lease {
    id: u64,
}

impl View for Lease {
    type V = u64;

    /// The number of the session the lease is on.
    closed spec fn view(&self) -> u64 {
        self.id
    }
}

/// What a session is.
pub struct SessionView<T> {
    /// Its number: no two sessions of a registry ever have the same.
    pub id: u64,
    pub value: T,
    pub leases: nat,
    pub last_used: u64,
}

/// How long nobody has used a session that was last used at a time.
pub open spec fn idle(last_used: u64, now: u64) -> int {
    if now >= last_used {
        now - last_used
    } else {
        0
    }
}

/// Whether a sweep leaves a session: a lease is out on it, or it has not
/// been idle for long enough.
pub open spec fn stays<T>(s: SessionView<T>, now: u64, idle_timeout: u64) -> bool {
    s.leases > 0 || idle(s.last_used, now) < idle_timeout
}

/// Sessions of one kind, keyed by the string the client uses in URLs.
pub struct Sessions<T> {
    index: DashMap<String, u64>,
    slots: Vec<Slot<T>>,
    next_id: u64,
    idle_timeout: u64,
}

/// The slot with a number.
spec fn slot_at<T>(s: Seq<Slot<T>>, id: u64) -> Option<Slot<T>>
    decreases s.len(),
{
    if s.len() == 0 {
        None
    } else if s.last().id == id {
        Some(s.last())
    } else {
        slot_at(s.drop_last(), id)
    }
}

/// Whether the numbers of slots rise, below a bound.
spec fn numbered<T>(s: Seq<Slot<T>>, below: u64) -> bool {
    &&& forall|i: int, j: int| 0 <= i < j < s.len() ==> (#[trigger] s[i]).id < (#[trigger] s[j]).id
    &&& forall|i: int| 0 <= i < s.len() ==> (#[trigger] s[i]).id < below
}

/// Whether a slot is the one its key stands for.
spec fn is_current<T>(k: Map<Seq<char>, u64>, s: Slot<T>) -> bool {
    k.contains_key(s.key@) && k[s.key@] == s.id
}

/// Whether keys stand for slots, and every slot is stood for or leased.
spec fn matched<T>(k: Map<Seq<char>, u64>, s: Seq<Slot<T>>) -> bool {
    &&& forall|key: Seq<char>| #[trigger]
        k.contains_key(key) ==> slot_at(s, k[key]) is Some && slot_at(s, k[key])->0.key@ == key
    &&& forall|i: int| 0 <= i < s.len() ==> is_current(k, #[trigger] s[i]) || s[i].leases > 0
}

proof fn lemma_slot_at<T>(s: Seq<Slot<T>>, id: u64)
    ensures
        match slot_at(s, id) {
            Some(x) => x.id == id && exists|i: int| 0 <= i < s.len() && #[trigger] s[i] == x,
            None => forall|i: int| 0 <= i < s.len() ==> (#[trigger] s[i]).id != id,
        },
    decreases s.len(),
{
    if s.len() > 0 {
        if s.last().id == id {
            assert(s[s.len() - 1] == s.last());
        } else {
            let front = s.drop_last();
            lemma_slot_at(front, id);
            match slot_at(front, id) {
                Some(x) => {
                    let i = choose|i: int| 0 <= i < front.len() && #[trigger] front[i] == x;
                    assert(s[i] == x);
                },
                None => {
                    assert forall|i: int| 0 <= i < s.len() implies (#[trigger] s[i]).id != id by {
                        if i < s.len() - 1 {
                            assert(front[i] == s[i]);
                        }
                    }
                },
            }
        }
    }
}

proof fn lemma_slot_is_at<T>(s: Seq<Slot<T>>, below: u64, i: int)
    requires
        numbered(s, below),
        0 <= i < s.len(),
    ensures
        slot_at(s, s[i].id) == Some(s[i]),
{
    lemma_slot_at(s, s[i].id);
    match slot_at(s, s[i].id) {
        Some(x) => {
            let j = choose|j: int| 0 <= j < s.len() && #[trigger] s[j] == x;
            if j < i {
                assert(s[j].id < s[i].id);
            } else if i < j {
                assert(s[i].id < s[j].id);
            }
        },
        None => {},
    }
}

impl<T> Sessions<T> {
    /// Whether the keys and the sessions belong together.
    pub closed spec fn well_formed(&self) -> bool {
        numbered(self.slots@, self.next_id) && matched(keys(self.index), self.slots@)
    }

    /// How long a session may be idle.
    pub closed spec fn timeout(&self) -> u64 {
        self.idle_timeout
    }

    /// The number the next session gets.
    pub closed spec fn next(&self) -> u64 {
        self.next_id
    }

    /// The session with a number, found by its key or only by its leases.
    pub closed spec fn numbered_session(&self, id: u64) -> Option<SessionView<T>> {
        match slot_at(self.slots@, id) {
            Some(x) => Some(
                SessionView {
                    id,
                    value: x.value,
                    leases: x.leases as nat,
                    last_used: x.last_used,
                },
            ),
            None => None,
        }
    }

    /// The session under a key.
    pub closed spec fn session(&self, key: Seq<char>) -> Option<SessionView<T>> {
        if keys(self.index).contains_key(key) {
            self.numbered_session(keys(self.index)[key])
        } else {
            None
        }
    }

    /// Whether the session with a number is found by a key.
    pub open spec fn is_keyed(&self, id: u64) -> bool {
        exists|key: Seq<char>| (#[trigger] self.session(key)) matches Some(s) && s.id == id
    }

    /// The keys there are sessions under.
    pub closed spec fn held(&self) -> Set<Seq<char>> {
        keys(self.index).dom()
    }

    /// A registry whose sessions are removed once no lease has been out on
    /// them for `idle_timeout`.
    pub fn new(idle_timeout: u64) -> (s: Self)
        ensures
            s.well_formed(),
            s.timeout() == idle_timeout,
            s.held() == Set::<Seq<char>>::empty(),
            s.next() == 0,
            forall|key: Seq<char>| #[trigger] s.session(key) is None,
    {
        Sessions { index: no_keys(), slots: Vec::new(), next_id: 0, idle_timeout }
    }

    fn position(&self, id: u64) -> (r: Option<usize>)
        ensures
            match r {
                Some(i) => i < self.slots@.len() && self.slots@[i as int].id == id,
                None => slot_at(self.slots@, id) is None,
            },
    {
        let mut i: usize = 0;
        while i < self.slots.len()
            invariant
                i <= self.slots@.len(),
                forall|j: int| 0 <= j < i ==> (#[trigger] self.slots@[j]).id != id,
            decreases self.slots@.len() - i,
        {
            if self.slots[i].id == id {
                return Some(i);
            }
            i += 1;
        }
        proof {
            lemma_slot_at(self.slots@, id);
        }
        None
    }

    /// Remove every session with no lease out that has been idle for the
    /// timeout, as of `now`.
    pub fn sweep(&mut self, now: u64)
        requires
            old(self).well_formed(),
        ensures
            final(self).well_formed(),
            final(self).timeout() == old(self).timeout(),
            final(self).next() == old(self).next(),
            forall|key: Seq<char>| #[trigger]
                final(self).session(key) == left(
                    old(self).session(key),
                    now,
                    old(self).timeout(),
                ),
            forall|id: u64| #[trigger]
                final(self).numbered_session(id) == left(
                    old(self).numbered_session(id),
                    now,
                    old(self).timeout(),
                ),
    {
        let ghost all = self.slots@;
        let timeout: u64 = self.idle_timeout;
        let ghost before = keys(self.index);
        let mut i: usize = 0;
        let ghost mut done: int = 0;
        proof {
            assert(all.take(0) =~= Seq::<Slot<T>>::empty());
            assert(all =~= swept(all.take(0), now, timeout) + all.skip(0));
        }
        while i < self.slots.len()
            invariant
                0 <= done <= all.len(),
                i == swept(all.take(done), now, timeout).len(),
                self.slots@ == swept(all.take(done), now, timeout) + all.skip(done),
                keys(self.index) == before,
                self.next_id == old(self).next_id,
                self.idle_timeout == timeout,
            decreases all.len() - done,
        {
            proof {
                assert(all.take(done + 1).drop_last() =~= all.take(done));
                assert(all.take(done + 1).last() == all[done]);
                assert(self.slots@[i as int] == all[done]);
                assert(all.skip(done).skip(1) =~= all.skip(done + 1));
            }
            let leases: usize = self.slots[i].leases;
            let last_used: u64 = self.slots[i].last_used;
            if leases > 0 || now.saturating_sub(last_used) < timeout {
                proof {
                    assert(swept(all.take(done), now, timeout).push(all[done]) + all.skip(done + 1)
                        =~= swept(all.take(done), now, timeout) + all.skip(done));
                }
                i += 1;
            } else {
                self.slots.remove(i);
                proof {
                    assert(self.slots@ =~= swept(all.take(done), now, timeout) + all.skip(
                        done + 1,
                    ));
                }
            }
            proof {
                done = done + 1;
            }
        }
        proof {
            assert(all.take(all.len() as int) =~= all);
            assert(self.slots@ =~= swept(all, now, timeout));
        }
        let mut kept: Vec<u64> = Vec::new();
        let mut k: usize = 0;
        while k < self.slots.len()
            invariant
                k <= self.slots@.len(),
                kept@.len() == k,
                forall|j: int| 0 <= j < k ==> kept@[j] == (#[trigger] self.slots@[j]).id,
            decreases self.slots@.len() - k,
        {
            kept.push(self.slots[k].id);
            k += 1;
        }
        keep_keys(&mut self.index, &kept);
        proof {
            let s = self.slots@;
            lemma_swept(all, now, timeout, self.next_id);
            let after = keys(self.index);
            assert forall|id: u64| kept@.contains(id) == (slot_at(s, id) is Some) by {
                lemma_slot_at(s, id);
                if kept@.contains(id) {
                    let j = choose|j: int| 0 <= j < kept@.len() && kept@[j] == id;
                    assert(s[j].id == id);
                }
                if slot_at(s, id) is Some {
                    let j = choose|j: int| 0 <= j < s.len() && #[trigger] s[j] == slot_at(s, id)->0;
                    assert(kept@[j] == id);
                }
            }
            assert forall|j: int| 0 <= j < s.len() implies is_current(after, #[trigger] s[j])
                || s[j].leases > 0 by {
                let m = choose|m: int| 0 <= m < all.len() && #[trigger] all[m] == s[j];
                assert(is_current(before, all[m]) || all[m].leases > 0);
                assert(kept@[j] == s[j].id);
            }
        }
    }

    /// Store `value` under `key`, replacing a session already there. Expired
    /// sessions are swept first, so a registry nobody looks at between
    /// inserts still does not grow without bound.
    pub fn insert(&mut self, key: String, value: T, now: u64)
        requires
            old(self).well_formed(),
            old(self).next() < u64::MAX,
        ensures
            final(self).well_formed(),
            final(self).timeout() == old(self).timeout(),
            final(self).next() == old(self).next() + 1,
            final(self).session(key@) == Some(
                SessionView { id: old(self).next(), value, leases: 0, last_used: now },
            ),
            forall|other: Seq<char>|
                other != key@ ==> #[trigger] final(self).session(other) == left(
                    old(self).session(other),
                    now,
                    old(self).timeout(),
                ),
            // A session that is replaced stays for the leases out on it.
            forall|id: u64|
                id != old(self).next() ==> #[trigger] final(self).numbered_session(id) == (
                if old(self).session(key@) matches Some(s) && s.id == id && s.leases == 0 {
                    None
                } else {
                    left(old(self).numbered_session(id), now, old(self).timeout())
                }),
    {
        self.sweep(now);
        let ghost mid = *self;
        let ghost swept_keys = keys(self.index);
        let ghost swept_slots = self.slots@;
        let ghost mut gone: int = -1;
        match key_number(&self.index, key.as_str()) {
            Some(id) => {
                match self.position(id) {
                    Some(i) => {
                        proof {
                            lemma_slot_is_at(swept_slots, self.next_id, i as int);
                        }
                        if self.slots[i].leases == 0 {
                            proof {
                                lemma_removed(swept_slots, self.next_id, i as int);
                            }
                            self.slots.remove(i);
                            proof {
                                gone = i as int;
                            }
                        }
                    },
                    None => {},
                }
            },
            None => {},
        }
        let ghost rest = self.slots@;
        let id: u64 = self.next_id;
        let ghost named = key@;
        let again = key.clone();
        self.slots.push(Slot { id, key, value, leases: 0, last_used: now });
        put_key(&mut self.index, again, id);
        self.next_id = id + 1;
        proof {
            lemma_put(swept_keys, swept_slots, rest, gone, named, self.slots@.last(), id);
            assert(self.slots@ =~= rest.push(self.slots@.last()));
            assert(self.slots@.drop_last() =~= rest);
            assert forall|n: u64| n != id implies #[trigger] self.numbered_session(n) == (
            if old(self).session(named) matches Some(s) && s.id == n && s.leases == 0 {
                None
            } else {
                left(old(self).numbered_session(n), now, old(self).timeout())
            }) by {
                assert(slot_at(self.slots@, n) == slot_at(rest, n));
                assert(mid.numbered_session(n) == left(
                    old(self).numbered_session(n),
                    now,
                    old(self).timeout(),
                ));
                assert(mid.session(named) == left(old(self).session(named), now, old(self).timeout()));
            }
            assert forall|other: Seq<char>| other != named implies #[trigger] self.session(other)
                == mid.session(other) by {
                if swept_keys.contains_key(other) {
                    assert(keys(self.index)[other] == swept_keys[other]);
                }
            }
        }
    }

    fn touch(&mut self, i: usize, leases: usize, now: u64)
        requires
            i < old(self).slots@.len(),
            numbered(old(self).slots@, old(self).next_id),
        ensures
            final(self).slots@ == old(self).slots@.update(
                i as int,
                Slot { leases, last_used: now, ..old(self).slots@[i as int] },
            ),
            final(self).index == old(self).index,
            final(self).next_id == old(self).next_id,
            final(self).idle_timeout == old(self).idle_timeout,
            numbered(final(self).slots@, final(self).next_id),
            forall|id: u64|
                id != old(self).slots@[i as int].id ==> #[trigger] slot_at(final(self).slots@, id)
                    == slot_at(old(self).slots@, id),
            slot_at(final(self).slots@, old(self).slots@[i as int].id) == Some(
                final(self).slots@[i as int],
            ),
    {
        self.slots[i].leases = leases;
        self.slots[i].last_used = now;
        proof {
            assert(self.slots@ =~= old(self).slots@.update(
                i as int,
                Slot { leases, last_used: now, ..old(self).slots@[i as int] },
            ));
            lemma_slot_is_at(self.slots@, self.next_id, i as int);
            assert forall|id: u64| id != old(self).slots@[i as int].id implies #[trigger] slot_at(
                self.slots@,
                id,
            ) == slot_at(old(self).slots@, id) by {
                lemma_updated(old(self).slots@, i as int, self.slots@[i as int], id);
            }
        }
    }

    /// The session under `key`, leased.
    pub fn get(&mut self, key: &str, now: u64) -> (r: Option<Lease>)
        requires
            old(self).well_formed(),
            old(self).session(key@) matches Some(s) ==> s.leases < usize::MAX,
        ensures
            final(self).well_formed(),
            final(self).timeout() == old(self).timeout(),
            final(self).next() == old(self).next(),
            match (r, old(self).session(key@)) {
                (Some(lease), Some(s)) => {
                    &&& lease@ == s.id
                    &&& final(self).session(key@) == Some(
                        SessionView { leases: s.leases + 1, last_used: now, ..s },
                    )
                    &&& final(self).numbered_session(lease@) == final(self).session(key@)
                },
                (None, None) => final(self).session(key@) is None,
                _ => false,
            },
            forall|other: Seq<char>|
                other != key@ ==> #[trigger] final(self).session(other) == old(self).session(other),
            forall|id: u64|
                (r matches Some(lease) ==> id != lease@) ==> #[trigger] final(self).numbered_session(
                    id,
                ) == old(self).numbered_session(id),
    {
        let id: u64 = match key_number(&self.index, key) {
            Some(id) => id,
            None => {
                return None;
            },
        };
        match self.position(id) {
            Some(i) => {
                proof {
                    lemma_slot_is_at(self.slots@, self.next_id, i as int);
                    lemma_matched_after_touch(
                        keys(self.index),
                        self.slots@,
                        self.next_id,
                        i as int,
                        (self.slots@[i as int].leases + 1) as usize,
                        now,
                    );
                }
                let leases: usize = self.slots[i].leases;
                self.touch(i, leases + 1, now);
                Some(Lease { id })
            },
            None => None,
        }
    }

    /// What a leased session owns.
    pub fn value(&self, lease: &Lease) -> (r: Option<&T>)
        requires
            self.well_formed(),
        ensures
            match (r, self.numbered_session(lease@)) {
                (Some(v), Some(s)) => *v == s.value,
                (None, None) => true,
                _ => false,
            },
    {
        match self.position(lease.id) {
            Some(i) => {
                proof {
                    lemma_slot_is_at(self.slots@, self.next_id, i as int);
                }
                Some(&self.slots[i].value)
            },
            None => None,
        }
    }

    /// Whether there is a number left for another session.
    pub fn has_room(&self) -> (r: bool)
        ensures
            r == (self.next() < u64::MAX),
    {
        self.next_id < u64::MAX
    }

    /// Whether there is a session under `key`.
    pub fn contains(&self, key: &str) -> (r: bool)
        requires
            self.well_formed(),
        ensures
            r == (self.session(key@) is Some),
    {
        key_number(&self.index, key).is_some()
    }

    /// Put something else in a leased session, and take out what it owned.
    pub fn swap_value(&mut self, lease: &Lease, value: T) -> (r: T)
        requires
            old(self).well_formed(),
        ensures
            final(self).well_formed(),
            final(self).timeout() == old(self).timeout(),
            final(self).next() == old(self).next(),
            match old(self).numbered_session(lease@) {
                Some(s) => r == s.value && final(self).numbered_session(lease@) == Some(
                    SessionView { value, ..s },
                ),
                None => r == value && final(self).numbered_session(lease@) is None,
            },
            forall|id: u64|
                id != lease@ ==> #[trigger] final(self).numbered_session(id)
                    == old(self).numbered_session(id),
            forall|key: Seq<char>| #[trigger]
                final(self).session(key) == (match old(self).session(key) {
                    Some(s) => if s.id == lease@ {
                        Some(SessionView { value, ..s })
                    } else {
                        Some(s)
                    },
                    None => None,
                }),
    {
        let mut other = value;
        match self.position(lease.id) {
            Some(i) => {
                let ghost s = self.slots@;
                std::mem::swap(&mut self.slots[i].value, &mut other);
                proof {
                    let x = self.slots@[i as int];
                    assert(self.slots@ =~= s.update(i as int, x));
                    lemma_slot_is_at(s, self.next_id, i as int);
                    lemma_revalued(keys(self.index), s, self.next_id, i as int, x);
                    assert forall|id: u64| id != x.id implies #[trigger] slot_at(self.slots@, id)
                        == slot_at(s, id) by {
                        lemma_updated(s, i as int, x, id);
                    }
                    lemma_slot_is_at(self.slots@, self.next_id, i as int);
                }
            },
            None => {},
        }
        other
    }

    /// Give a lease back: the idle clock of its session starts with the last
    /// of them. A session that was replaced goes with it.
    pub fn release(&mut self, lease: Lease, now: u64)
        requires
            old(self).well_formed(),
        ensures
            final(self).well_formed(),
            final(self).timeout() == old(self).timeout(),
            final(self).next() == old(self).next(),
            forall|key: Seq<char>| #[trigger]
                final(self).session(key) == (match old(self).session(key) {
                    Some(s) => if s.id == lease@ && s.leases > 0 {
                        Some(
                            SessionView { leases: (s.leases - 1) as nat, last_used: now, ..s },
                        )
                    } else {
                        Some(s)
                    },
                    None => None,
                }),
            final(self).numbered_session(lease@) == (match old(self).numbered_session(lease@) {
                Some(s) => if s.leases == 0 {
                    Some(s)
                } else if s.leases > 1 || old(self).is_keyed(lease@) {
                    Some(SessionView { leases: (s.leases - 1) as nat, last_used: now, ..s })
                } else {
                    None
                },
                None => None,
            }),
            forall|id: u64|
                id != lease@ ==> #[trigger] final(self).numbered_session(id)
                    == old(self).numbered_session(id),
    {
        match self.position(lease.id) {
            Some(i) => {
                let leases: usize = self.slots[i].leases;
                proof {
                    lemma_slot_is_at(self.slots@, self.next_id, i as int);
                }
                if leases > 0 {
                    let current = match key_number(&self.index, self.slots[i].key.as_str()) {
                        Some(id) => id == lease.id,
                        None => false,
                    };
                    proof {
                        if current {
                            assert(self.session(self.slots@[i as int].key@)->0.id == lease.id);
                        }
                    }
                    if leases == 1 && !current {
                        let ghost all = self.slots@;
                        proof {
                            lemma_removed(all, self.next_id, i as int);
                        }
                        self.slots.remove(i);
                        proof {
                            let s = self.slots@;
                            assert forall|j: int| 0 <= j < s.len() implies is_current(
                                keys(self.index),
                                #[trigger] s[j],
                            ) || s[j].leases > 0 by {
                                let m = choose|m: int|
                                    0 <= m < all.len() && #[trigger] all[m] == s[j];
                                assert(is_current(keys(self.index), all[m]) || all[m].leases > 0);
                            }
                        }
                    } else {
                        proof {
                            lemma_matched_after_touch(
                                keys(self.index),
                                self.slots@,
                                self.next_id,
                                i as int,
                                (leases - 1) as usize,
                                now,
                            );
                        }
                        self.touch(i, leases - 1, now);
                    }
                }
            },
            None => {},
        }
    }

    /// The first session `matches` accepts, leased. For finding a session
    /// that already holds what a new one would otherwise fetch again.
    pub fn find<F: Fn(&T) -> bool>(&mut self, matches: F, now: u64) -> (r: Option<Lease>)
        requires
            old(self).well_formed(),
            forall|v: &T| #[trigger] call_requires(matches, (v,)),
            forall|key: Seq<char>| (#[trigger] old(self).session(key)) matches Some(s) ==> s.leases
                < usize::MAX,
        ensures
            final(self).well_formed(),
            final(self).timeout() == old(self).timeout(),
            final(self).next() == old(self).next(),
            match r {
                Some(lease) => exists|key: Seq<char>| {
                    &&& (#[trigger] old(self).session(key)) matches Some(s) && s.id == lease@
                        && call_ensures(matches, (&s.value,), true) && final(self).session(key)
                        == Some(SessionView { leases: s.leases + 1, last_used: now, ..s })
                    &&& forall|other: Seq<char>|
                        other != key ==> #[trigger] final(self).session(other) == old(self).session(
                            other,
                        )
                },
                None => forall|key: Seq<char>| {
                    &&& #[trigger] final(self).session(key) == old(self).session(key)
                    &&& old(self).session(key) matches Some(s) ==> call_ensures(
                        matches,
                        (&s.value,),
                        false,
                    )
                },
            },
            forall|id: u64|
                (r matches Some(lease) ==> id != lease@) ==> #[trigger] final(self).numbered_session(
                    id,
                ) == old(self).numbered_session(id),
    {
        let mut i: usize = 0;
        while i < self.slots.len()
            invariant
                i <= self.slots@.len(),
                *self == *old(self),
                self.well_formed(),
                forall|v: &T| #[trigger] call_requires(matches, (v,)),
                forall|key: Seq<char>| (#[trigger] self.session(key)) matches Some(s) ==> s.leases
                    < usize::MAX,
                forall|j: int|
                    0 <= j < i && is_current(keys(self.index), #[trigger] self.slots@[j])
                        ==> call_ensures(matches, (&self.slots@[j].value,), false),
            decreases self.slots@.len() - i,
        {
            let current = match key_number(&self.index, self.slots[i].key.as_str()) {
                Some(id) => id == self.slots[i].id,
                None => false,
            };
            if current && matches(&self.slots[i].value) {
                let id: u64 = self.slots[i].id;
                let leases: usize = self.slots[i].leases;
                let ghost key = self.slots@[i as int].key@;
                proof {
                    lemma_slot_is_at(self.slots@, self.next_id, i as int);
                    assert(self.session(key) is Some);
                    lemma_matched_after_touch(
                        keys(self.index),
                        self.slots@,
                        self.next_id,
                        i as int,
                        (leases + 1) as usize,
                        now,
                    );
                }
                self.touch(i, leases + 1, now);
                proof {
                    assert(old(self).session(key)->0.id == id);
                    assert forall|other: Seq<char>| other != key implies #[trigger] self.session(
                        other,
                    ) == old(self).session(other) by {
                        if keys(self.index).contains_key(other) {
                            assert(slot_at(old(self).slots@, keys(self.index)[other])->0.key@
                                == other);
                        }
                    }
                }
                return Some(Lease { id });
            }
            i += 1;
        }
        proof {
            assert forall|key: Seq<char>| (#[trigger] self.session(key)) matches Some(
                s,
            ) implies call_ensures(matches, (&self.session(key)->0.value,), false) by {
                let id = keys(self.index)[key];
                lemma_slot_at(self.slots@, id);
                let j = choose|j: int|
                    0 <= j < self.slots@.len() && #[trigger] self.slots@[j] == slot_at(
                        self.slots@,
                        id,
                    )->0;
                assert(is_current(keys(self.index), self.slots@[j]));
            }
        }
        None
    }

    /// How many sessions there are.
    pub fn len(&self) -> (n: usize)
        ensures
            n == self.held().len(),
    {
        key_count(&self.index)
    }

    /// Whether there are no sessions.
    pub fn is_empty(&self) -> (r: bool)
        ensures
            r == (self.held() == Set::<Seq<char>>::empty()),
    {
        has_no_keys(&self.index)
    }
}

/// What a sweep leaves of a session.
pub open spec fn left<T>(
    s: Option<SessionView<T>>,
    now: u64,
    idle_timeout: u64,
) -> Option<SessionView<T>> {
    match s {
        Some(x) => if stays(x, now, idle_timeout) {
            Some(x)
        } else {
            None
        },
        None => None,
    }
}

/// Whether a sweep leaves a slot.
spec fn slot_stays<T>(s: Slot<T>, now: u64, idle_timeout: u64) -> bool {
    s.leases > 0 || idle(s.last_used, now) < idle_timeout
}

/// The slots a sweep leaves.
spec fn swept<T>(s: Seq<Slot<T>>, now: u64, idle_timeout: u64) -> Seq<Slot<T>>
    decreases s.len(),
{
    if s.len() == 0 {
        s
    } else if slot_stays(s.last(), now, idle_timeout) {
        swept(s.drop_last(), now, idle_timeout).push(s.last())
    } else {
        swept(s.drop_last(), now, idle_timeout)
    }
}

proof fn lemma_numbered_front<T>(s: Seq<Slot<T>>, below: u64)
    requires
        numbered(s, below),
        s.len() > 0,
    ensures
        numbered(s.drop_last(), below),
        forall|i: int| 0 <= i < s.len() - 1 ==> (#[trigger] s[i]).id < s.last().id,
{
    let front = s.drop_last();
    assert forall|i: int, j: int| 0 <= i < j < front.len() implies (#[trigger] front[i]).id < (
    #[trigger] front[j]).id by {
        assert(front[i] == s[i] && front[j] == s[j]);
    }
    assert forall|i: int| 0 <= i < front.len() implies (#[trigger] front[i]).id < below by {
        assert(front[i] == s[i]);
    }
    assert forall|i: int| 0 <= i < s.len() - 1 implies (#[trigger] s[i]).id < s.last().id by {
        assert(s[i].id < s[s.len() - 1].id);
    }
}

/// A sweep takes slots out and leaves the rest as they are.
proof fn lemma_swept<T>(s: Seq<Slot<T>>, now: u64, idle_timeout: u64, below: u64)
    requires
        numbered(s, below),
    ensures
        numbered(swept(s, now, idle_timeout), below),
        forall|i: int|
            0 <= i < swept(s, now, idle_timeout).len() ==> exists|m: int|
                0 <= m < s.len() && s[m] == #[trigger] swept(s, now, idle_timeout)[i],
        forall|id: u64| #[trigger]
            slot_at(swept(s, now, idle_timeout), id) == (match slot_at(s, id) {
                Some(x) => if slot_stays(x, now, idle_timeout) {
                    Some(x)
                } else {
                    None
                },
                None => None,
            }),
    decreases s.len(),
{
    if s.len() > 0 {
        let front = s.drop_last();
        let a = swept(front, now, idle_timeout);
        let r = swept(s, now, idle_timeout);
        lemma_numbered_front(s, below);
        lemma_swept(front, now, idle_timeout, below);
        assert forall|i: int| 0 <= i < r.len() implies exists|m: int|
            0 <= m < s.len() && s[m] == #[trigger] r[i] by {
            if i < a.len() {
                assert(r[i] == a[i]);
                let m = choose|m: int| 0 <= m < front.len() && front[m] == a[i];
                assert(s[m] == r[i]);
            } else {
                assert(s[s.len() - 1] == r[i]);
            }
        }
        assert forall|i: int| 0 <= i < a.len() implies (#[trigger] a[i]).id < s.last().id by {
            let m = choose|m: int| 0 <= m < front.len() && front[m] == a[i];
            assert(s[m].id < s.last().id);
        }
        assert(numbered(r, below)) by {
            assert forall|i: int, j: int| 0 <= i < j < r.len() implies (#[trigger] r[i]).id < (
            #[trigger] r[j]).id by {
                if j < a.len() {
                    assert(r[i] == a[i] && r[j] == a[j]);
                } else {
                    assert(r[i] == a[i]);
                }
            }
            assert forall|i: int| 0 <= i < r.len() implies (#[trigger] r[i]).id < below by {
                if i < a.len() {
                    assert(r[i] == a[i]);
                }
            }
        }
        assert forall|id: u64| #[trigger]
            slot_at(r, id) == (match slot_at(s, id) {
                Some(x) => if slot_stays(x, now, idle_timeout) {
                    Some(x)
                } else {
                    None
                },
                None => None,
            }) by {
            if slot_stays(s.last(), now, idle_timeout) {
                assert(r.drop_last() =~= a);
            } else if id == s.last().id {
                lemma_slot_at(a, id);
                if slot_at(a, id) is Some {
                    let j = choose|j: int|
                        0 <= j < a.len() && #[trigger] a[j] == slot_at(a, id)->0;
                    assert(a[j].id < s.last().id);
                }
            }
        }
    }
}

/// Taking one slot out leaves the rest as they are.
proof fn lemma_removed<T>(s: Seq<Slot<T>>, below: u64, i: int)
    requires
        numbered(s, below),
        0 <= i < s.len(),
    ensures
        numbered(s.remove(i), below),
        slot_at(s.remove(i), s[i].id) is None,
        forall|id: u64|
            id != s[i].id ==> #[trigger] slot_at(s.remove(i), id) == slot_at(s, id),
        forall|j: int|
            0 <= j < s.remove(i).len() ==> exists|m: int|
                0 <= m < s.len() && s[m] == #[trigger] s.remove(i)[j],
{
    let r = s.remove(i);
    assert forall|j: int| 0 <= j < r.len() implies exists|m: int|
        0 <= m < s.len() && s[m] == #[trigger] r[j] by {
        if j < i {
            assert(s[j] == r[j]);
        } else {
            assert(s[j + 1] == r[j]);
        }
    }
    assert forall|a: int, b: int| 0 <= a < b < r.len() implies (#[trigger] r[a]).id < (
    #[trigger] r[b]).id by {
        let x = if a < i {
            a
        } else {
            a + 1
        };
        let y = if b < i {
            b
        } else {
            b + 1
        };
        assert(s[x].id < s[y].id);
    }
    assert forall|a: int| 0 <= a < r.len() implies (#[trigger] r[a]).id < below by {
        let x = if a < i {
            a
        } else {
            a + 1
        };
        assert(s[x].id < below);
    }
    lemma_slot_at(r, s[i].id);
    if slot_at(r, s[i].id) is Some {
        let j = choose|j: int| 0 <= j < r.len() && #[trigger] r[j] == slot_at(r, s[i].id)->0;
        if j < i {
            assert(s[j].id < s[i].id);
        } else {
            assert(s[i].id < s[j + 1].id);
        }
    }
    assert forall|id: u64| id != s[i].id implies #[trigger] slot_at(r, id) == slot_at(s, id) by {
        lemma_slot_at(r, id);
        lemma_slot_at(s, id);
        match slot_at(s, id) {
            Some(x) => {
                let m = choose|m: int| 0 <= m < s.len() && #[trigger] s[m] == x;
                let j = if m < i {
                    m
                } else {
                    m - 1
                };
                assert(r[j] == x);
                lemma_slot_is_at(r, below, j);
            },
            None => {
                if slot_at(r, id) is Some {
                    let j = choose|j: int|
                        0 <= j < r.len() && #[trigger] r[j] == slot_at(r, id)->0;
                    let m = choose|m: int| 0 <= m < s.len() && s[m] == r[j];
                    assert(s[m].id == id);
                }
            },
        }
    }
}

/// A session put under a key takes the place of the one there, which goes
/// unless it is leased.
proof fn lemma_put<T>(
    k: Map<Seq<char>, u64>,
    s: Seq<Slot<T>>,
    rest: Seq<Slot<T>>,
    gone: int,
    named: Seq<char>,
    x: Slot<T>,
    id: u64,
)
    requires
        numbered(s, id),
        matched(k, s),
        id < u64::MAX,
        x.id == id,
        x.key@ == named,
        gone < 0 ==> rest == s && (k.contains_key(named) ==> slot_at(s, k[named])->0.leases > 0),
        gone >= 0 ==> gone < s.len() && rest == s.remove(gone) && k.contains_key(named)
            && k[named] == s[gone].id,
    ensures
        numbered(rest.push(x), (id + 1) as u64),
        matched(k.insert(named, id), rest.push(x)),
        slot_at(rest.push(x), id) == Some(x),
        forall|other: Seq<char>|
            other != named && #[trigger] k.contains_key(other) ==> slot_at(rest.push(x), k[other])
                == slot_at(s, k[other]),
{
    let r = rest.push(x);
    let after = k.insert(named, id);
    assert(r.drop_last() =~= rest);
    assert(r.last() == x);
    if gone >= 0 {
        lemma_removed(s, id, gone);
        lemma_slot_is_at(s, id, gone);
    }
    lemma_pushed(rest, x, id);
    assert forall|other: Seq<char>| other != named && #[trigger] k.contains_key(other) implies {
        &&& slot_at(r, k[other]) == slot_at(s, k[other])
        &&& k[other] < id
    } by {
        let n = k[other];
        assert(slot_at(s, n)->0.key@ == other);
        lemma_slot_at(s, n);
        let m = choose|m: int| 0 <= m < s.len() && #[trigger] s[m] == slot_at(s, n)->0;
        assert(s[m].id < id);
        if gone >= 0 {
            assert(slot_at(s, k[named])->0.key@ == named);
            assert(n != s[gone].id);
        }
        assert(slot_at(rest, n) == slot_at(s, n));
    }
    assert forall|key: Seq<char>| #[trigger] after.contains_key(key) implies slot_at(
        r,
        after[key],
    ) is Some && slot_at(r, after[key])->0.key@ == key by {
        if key != named {
            assert(k.contains_key(key));
        }
    }
    assert forall|j: int| 0 <= j < r.len() implies is_current(after, #[trigger] r[j])
        || r[j].leases > 0 by {
        if j < rest.len() {
            assert(r[j] == rest[j]);
            lemma_rest_is_used(k, s, rest, gone, named, id, j);
        }
    }
}

/// A slot with the next number keeps the numbers rising.
proof fn lemma_pushed<T>(rest: Seq<Slot<T>>, x: Slot<T>, id: u64)
    requires
        numbered(rest, id),
        x.id == id,
        id < u64::MAX,
    ensures
        numbered(rest.push(x), (id + 1) as u64),
{
    let r = rest.push(x);
    assert forall|i: int, j: int| 0 <= i < j < r.len() implies (#[trigger] r[i]).id < (
    #[trigger] r[j]).id by {
        assert(r[i] == rest[i]);
        if j < rest.len() {
            assert(r[j] == rest[j]);
        }
    }
    assert forall|i: int| 0 <= i < r.len() implies (#[trigger] r[i]).id < (id + 1) as u64 by {
        if i < rest.len() {
            assert(r[i] == rest[i]);
        }
    }
}

/// What is left when a session makes place for another is under a key of its
/// own, or leased.
proof fn lemma_rest_is_used<T>(
    k: Map<Seq<char>, u64>,
    s: Seq<Slot<T>>,
    rest: Seq<Slot<T>>,
    gone: int,
    named: Seq<char>,
    id: u64,
    j: int,
)
    requires
        numbered(s, id),
        matched(k, s),
        gone < 0 ==> rest == s && (k.contains_key(named) ==> slot_at(s, k[named])->0.leases > 0),
        gone >= 0 ==> gone < s.len() && rest == s.remove(gone) && k.contains_key(named)
            && k[named] == s[gone].id,
        0 <= j < rest.len(),
    ensures
        (rest[j].key@ != named && is_current(k, rest[j])) || rest[j].leases > 0,
{
    let m = if gone < 0 || j < gone {
        j
    } else {
        j + 1
    };
    assert(s[m] == rest[j]);
    assert(is_current(k, s[m]) || s[m].leases > 0);
    lemma_slot_is_at(s, id, m);
    if gone >= 0 {
        if m < gone {
            assert(s[m].id < s[gone].id);
        } else {
            assert(s[gone].id < s[m].id);
        }
    }
}

/// Changing a slot leaves the others as they are.
proof fn lemma_updated<T>(s: Seq<Slot<T>>, i: int, x: Slot<T>, id: u64)
    requires
        0 <= i < s.len(),
        x.id == s[i].id,
        id != x.id,
    ensures
        slot_at(s.update(i, x), id) == slot_at(s, id),
    decreases s.len(),
{
    let r = s.update(i, x);
    if i == s.len() - 1 {
        assert(r.drop_last() =~= s.drop_last());
    } else {
        assert(r.drop_last() =~= s.drop_last().update(i, x));
        lemma_updated(s.drop_last(), i, x, id);
    }
}

/// A lease taken or given back keeps keys and slots together, as long as a
/// slot no key stands for keeps one.
proof fn lemma_matched_after_touch<T>(
    k: Map<Seq<char>, u64>,
    s: Seq<Slot<T>>,
    below: u64,
    i: int,
    leases: usize,
    now: u64,
)
    requires
        numbered(s, below),
        matched(k, s),
        0 <= i < s.len(),
        leases > 0 || is_current(k, s[i]),
    ensures
        matched(k, s.update(i, Slot { leases, last_used: now, ..s[i] })),
{
    let x = Slot { leases, last_used: now, ..s[i] };
    let r = s.update(i, x);
    lemma_slot_is_at(s, below, i);
    assert(numbered(r, below)) by {
        assert forall|a: int, b: int| 0 <= a < b < r.len() implies (#[trigger] r[a]).id < (
        #[trigger] r[b]).id by {
            assert(s[a].id < s[b].id);
        }
        assert forall|a: int| 0 <= a < r.len() implies (#[trigger] r[a]).id < below by {
            assert(s[a].id < below);
        }
    }
    lemma_slot_is_at(r, below, i);
    assert forall|key: Seq<char>| #[trigger] k.contains_key(key) implies slot_at(r, k[key]) is Some
        && slot_at(r, k[key])->0.key@ == key by {
        if k[key] != s[i].id {
            lemma_updated(s, i, x, k[key]);
        }
    }
    assert forall|j: int| 0 <= j < r.len() implies is_current(k, #[trigger] r[j]) || r[j].leases
        > 0 by {
        assert(is_current(k, s[j]) || s[j].leases > 0);
    }
}

/// Changing what a session owns keeps keys and slots together.
proof fn lemma_revalued<T>(
    k: Map<Seq<char>, u64>,
    s: Seq<Slot<T>>,
    below: u64,
    i: int,
    x: Slot<T>,
)
    requires
        numbered(s, below),
        matched(k, s),
        0 <= i < s.len(),
        x.id == s[i].id,
        x.key == s[i].key,
        x.leases == s[i].leases,
    ensures
        numbered(s.update(i, x), below),
        matched(k, s.update(i, x)),
{
    let r = s.update(i, x);
    lemma_slot_is_at(s, below, i);
    assert(numbered(r, below)) by {
        assert forall|a: int, b: int| 0 <= a < b < r.len() implies (#[trigger] r[a]).id < (
        #[trigger] r[b]).id by {
            assert(s[a].id < s[b].id);
        }
        assert forall|a: int| 0 <= a < r.len() implies (#[trigger] r[a]).id < below by {
            assert(s[a].id < below);
        }
    }
    lemma_slot_is_at(r, below, i);
    assert forall|key: Seq<char>| #[trigger] k.contains_key(key) implies slot_at(r, k[key]) is Some
        && slot_at(r, k[key])->0.key@ == key by {
        if k[key] != s[i].id {
            lemma_updated(s, i, x, k[key]);
        }
    }
    assert forall|j: int| 0 <= j < r.len() implies is_current(k, #[trigger] r[j]) || r[j].leases
        > 0 by {
        assert(is_current(k, s[j]) || s[j].leases > 0);
    }
}

/// How long, in nanoseconds, there is between two sweeps of sessions with an
/// idle timeout: a session outlives its timeout by a fraction of it, and the
/// sessions are not walked for nothing.
pub fn janitor_period(idle_timeout: u64) -> (period: u64)
    ensures
        period == (if idle_timeout / 4 > 1_000_000_000 {
            idle_timeout / 4
        } else {
            1_000_000_000
        }),
{
    let quarter: u64 = idle_timeout / 4;
    if quarter > 1_000_000_000 {
        quarter
    } else {
        1_000_000_000
    }
}

/// A session is kept under one key.
pub proof fn no_two_keys_share_a_session<T>(s: Sessions<T>, a: Seq<char>, b: Seq<char>)
    requires
        s.well_formed(),
        s.session(a) is Some,
        s.session(b) is Some,
        s.session(a)->0.id == s.session(b)->0.id,
    ensures
        a == b,
{
}

/// A lease is a use: a session with one out survives every sweep, however
/// long it has been.
pub proof fn a_leased_session_is_never_swept<T>(s: SessionView<T>, now: u64, idle_timeout: u64)
    requires
        s.leases > 0,
    ensures
        left(Some(s), now, idle_timeout) == Some(s),
{
}

/// A session nobody has looked at since the timeout goes, and not before:
/// the clock counts from its last use.
pub proof fn an_idle_session_goes_at_the_timeout<T>(
    s: SessionView<T>,
    now: u64,
    idle_timeout: u64,
)
    requires
        s.leases == 0,
        now >= s.last_used,
    ensures
        left(Some(s), now, idle_timeout) is None <==> now - s.last_used >= idle_timeout,
{
}

/// Sweeping twice at one time is sweeping once.
pub proof fn a_sweep_leaves_nothing_to_sweep<T>(
    s: Option<SessionView<T>>,
    now: u64,
    idle_timeout: u64,
)
    ensures
        left(left(s, now, idle_timeout), now, idle_timeout) == left(s, now, idle_timeout),
{
}

/// A sweep takes a session or leaves it as it is, and one last used behind
/// the time of the sweep has not been idle at all.
pub proof fn a_sweep_changes_no_session<T>(s: SessionView<T>, now: u64, idle_timeout: u64)
    ensures
        left(Some(s), now, idle_timeout) matches Some(x) ==> x == s,
        now <= s.last_used ==> (left(Some(s), now, idle_timeout) is Some <==> s.leases > 0
            || idle_timeout > 0),
        left(None::<SessionView<T>>, now, idle_timeout) is None,
{
}

} // verus!
