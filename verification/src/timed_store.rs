//! Values under keys of texts, each with the time at which it was put there.
use vstd::prelude::*;

use crate::disk_index;
use crate::text::same;

verus! {

#[derive(Debug)]
pub struct TimedEntry<T> {
    pub key: Vec<String>,
    pub value: T,
    pub at: u64,
}

/// The entries in the order in which their keys first came.
#[derive(Debug)]
pub struct TimedStore<T> {
    pub entries: Vec<TimedEntry<T>>,
}

/// The time since `at`.
pub open spec fn elapsed(now: u64, at: u64) -> u64 {
    if now >= at {
        (now - at) as u64
    } else {
        0
    }
}

pub fn elapsed_since(now: u64, at: u64) -> (r: u64)
    ensures
        r == elapsed(now, at),
{
    if now >= at {
        now - at
    } else {
        0
    }
}

pub open spec fn key_of<T>(e: TimedEntry<T>) -> Seq<Seq<char>> {
    disk_index::texts(e.key@)
}

/// The first entry under a key.
pub open spec fn place<T>(s: Seq<TimedEntry<T>>, key: Seq<Seq<char>>, k: int) -> Option<int>
    decreases s.len() - k,
{
    if k < 0 || k >= s.len() {
        None
    } else if key_of(s[k]) == key {
        Some(k)
    } else {
        place(s, key, k + 1)
    }
}

/// The entries among the first `n` that are younger than `ttl`.
pub open spec fn alive<T>(s: Seq<TimedEntry<T>>, now: u64, ttl: u64, n: int) -> Seq<TimedEntry<T>>
    decreases n,
{
    if n <= 0 {
        Seq::empty()
    } else if elapsed(now, s[n - 1].at) < ttl {
        alive(s, now, ttl, n - 1).push(s[n - 1])
    } else {
        alive(s, now, ttl, n - 1)
    }
}

/// The first of the oldest among the first `n` entries.
pub open spec fn oldest<T>(s: Seq<TimedEntry<T>>, n: int) -> int
    decreases n,
{
    if n <= 1 {
        0
    } else {
        let before = oldest(s, n - 1);
        if s[n - 1].at < s[before].at {
            n - 1
        } else {
            before
        }
    }
}

/// The entries with a value put under a key.
pub open spec fn with_put<T>(s: Seq<TimedEntry<T>>, e: TimedEntry<T>) -> Seq<TimedEntry<T>> {
    match place(s, key_of(e), 0) {
        Some(k) => s.update(k, e),
        None => s.push(e),
    }
}

pub fn same_key(a: &Vec<String>, b: &Vec<String>) -> (r: bool)
    ensures
        r == (disk_index::texts(a@) == disk_index::texts(b@)),
{
    if a.len() != b.len() {
        proof {
            assert(disk_index::texts(a@).len() != disk_index::texts(b@).len());
        }
        return false;
    }
    let mut k: usize = 0;
    while k < a.len()
        invariant
            k <= a@.len(),
            a@.len() == b@.len(),
            forall|j: int| 0 <= j < k ==> (#[trigger] a@[j])@ == b@[j]@,
        decreases a@.len() - k,
    {
        if !same(a[k].as_str(), b[k].as_str()) {
            proof {
                assert(disk_index::texts(a@)[k as int] != disk_index::texts(b@)[k as int]);
            }
            return false;
        }
        k += 1;
    }
    proof {
        assert(disk_index::texts(a@) =~= disk_index::texts(b@));
    }
    true
}

proof fn lemma_place_push<T>(s: Seq<TimedEntry<T>>, e: TimedEntry<T>, key: Seq<Seq<char>>, k: int)
    requires
        0 <= k <= s.len(),
    ensures
        place(s.push(e), key, k) == match place(s, key, k) {
            Some(i) => Some(i),
            None => if key_of(e) == key {
                Some(s.len() as int)
            } else {
                None
            },
        },
    decreases s.len() - k,
{
    if k < s.len() {
        assert(s.push(e)[k] == s[k]);
        lemma_place_push(s, e, key, k + 1);
    } else {
        assert(s.push(e)[k] == e);
        assert(place(s.push(e), key, k + 1) is None);
    }
}

proof fn lemma_place_before<T>(s: Seq<TimedEntry<T>>, key: Seq<Seq<char>>, k: int, j: int)
    requires
        0 <= k <= j < s.len(),
        match place(s, key, k) {
            Some(i) => j < i,
            None => true,
        },
    ensures
        key_of(s[j]) != key,
    decreases j - k,
{
    if k < j {
        lemma_place_before(s, key, k + 1, j);
    }
}

/// An entry that is found and young enough is found when the old ones are gone.
pub proof fn lemma_alive_keeps_place<T>(
    s: Seq<TimedEntry<T>>,
    now: u64,
    ttl: u64,
    key: Seq<Seq<char>>,
    i: int,
    n: int,
)
    requires
        place(s, key, 0) == Some(i),
        0 <= i < s.len(),
        elapsed(now, s[i].at) < ttl,
        0 <= n <= s.len(),
    ensures
        n <= i ==> place(alive(s, now, ttl, n), key, 0) is None,
        n > i ==> (place(alive(s, now, ttl, n), key, 0) matches Some(j) && 0 <= j < alive(
            s,
            now,
            ttl,
            n,
        ).len() && alive(s, now, ttl, n)[j] == s[i]),
    decreases n,
{
    if n > 0 {
        let before = alive(s, now, ttl, n - 1);
        lemma_place(s, key, 0);
        lemma_alive_keeps_place(s, now, ttl, key, i, n - 1);
        if n - 1 < i {
            lemma_place_before(s, key, 0, n - 1);
        }
        lemma_place_push(before, s[n - 1], key, 0);
        lemma_place(before, key, 0);
    }
}

/// What is put is found under its key.
pub proof fn lemma_put_is_found<T>(s: Seq<TimedEntry<T>>, e: TimedEntry<T>)
    ensures
        place(with_put(s, e), key_of(e), 0) matches Some(i) && 0 <= i < with_put(s, e).len()
            && with_put(s, e)[i] == e,
{
    lemma_place(s, key_of(e), 0);
    match place(s, key_of(e), 0) {
        Some(i) => {
            lemma_place_update(s, e, i, 0);
        },
        None => {
            lemma_place_push(s, e, key_of(e), 0);
        },
    }
}

proof fn lemma_place_update<T>(s: Seq<TimedEntry<T>>, e: TimedEntry<T>, i: int, k: int)
    requires
        0 <= k <= i < s.len(),
        place(s, key_of(e), k) == Some(i),
    ensures
        place(s.update(i, e), key_of(e), k) == Some(i),
    decreases i - k,
{
    if k < i {
        assert(s.update(i, e)[k] == s[k]);
        lemma_place_update(s, e, i, k + 1);
    }
}

proof fn lemma_place<T>(s: Seq<TimedEntry<T>>, key: Seq<Seq<char>>, k: int)
    requires
        0 <= k,
    ensures
        place(s, key, k) matches Some(i) ==> k <= i < s.len() && key_of(s[i]) == key,
    decreases s.len() - k,
{
    if k < s.len() && key_of(s[k]) != key {
        lemma_place(s, key, k + 1);
    }
}

impl<T> TimedStore<T> {
    pub fn new() -> (s: Self)
        ensures
            s.entries@.len() == 0,
    {
        TimedStore { entries: Vec::new() }
    }

    /// Drops what is as old as `ttl`.
    pub fn prune(&mut self, now: u64, ttl: u64)
        ensures
            final(self).entries@ == alive(
                old(self).entries@,
                now,
                ttl,
                old(self).entries@.len() as int,
            ),
    {
        let ghost whole = self.entries@;
        let mut rest: Vec<TimedEntry<T>> = Vec::new();
        std::mem::swap(&mut rest, &mut self.entries);
        let ghost mut n: int = 0;
        proof {
            assert(rest@ =~= whole.skip(0));
        }
        while rest.len() > 0
            invariant
                0 <= n <= whole.len(),
                rest@ == whole.skip(n),
                self.entries@ == alive(whole, now, ttl, n),
            decreases rest@.len(),
        {
            let e = rest.remove(0);
            proof {
                assert(e == whole[n]);
                assert(rest@ =~= whole.skip(n + 1));
            }
            if elapsed_since(now, e.at) < ttl {
                self.entries.push(e);
            }
            proof {
                n = n + 1;
            }
        }
    }

    pub fn find(&self, key: &Vec<String>) -> (r: Option<usize>)
        ensures
            match r {
                Some(k) => place(self.entries@, disk_index::texts(key@), 0) == Some(k as int) && k
                    < self.entries@.len(),
                None => place(self.entries@, disk_index::texts(key@), 0) is None,
            },
    {
        let mut k: usize = 0;
        while k < self.entries.len()
            invariant
                k <= self.entries@.len(),
                place(self.entries@, disk_index::texts(key@), 0) == place(
                    self.entries@,
                    disk_index::texts(key@),
                    k as int,
                ),
            decreases self.entries@.len() - k,
        {
            if same_key(&self.entries[k].key, key) {
                return Some(k);
            }
            k += 1;
        }
        None
    }

    /// Takes out the value under a key.
    pub fn take(&mut self, key: &Vec<String>) -> (r: Option<T>)
        ensures
            match place(old(self).entries@, disk_index::texts(key@), 0) {
                Some(k) => {
                    &&& r == Some(old(self).entries@[k].value)
                    &&& final(self).entries@ == old(self).entries@.remove(k)
                },
                None => r is None && final(self).entries@ == old(self).entries@,
            },
    {
        match self.find(key) {
            Some(k) => Some(self.entries.remove(k).value),
            None => None,
        }
    }

    /// Puts a value under a key, in place of the one that is there.
    pub fn put(&mut self, key: Vec<String>, value: T, now: u64)
        ensures
            final(self).entries@ == with_put(
                old(self).entries@,
                TimedEntry { key, value, at: now },
            ),
    {
        match self.find(&key) {
            Some(k) => {
                self.entries.set(k, TimedEntry { key, value, at: now });
            },
            None => {
                self.entries.push(TimedEntry { key, value, at: now });
            },
        }
    }

    /// Drops the first of the oldest entries.
    pub fn drop_oldest(&mut self)
        ensures
            old(self).entries@.len() == 0 ==> final(self).entries@ == old(self).entries@,
            old(self).entries@.len() > 0 ==> final(self).entries@ == old(self).entries@.remove(
                oldest(old(self).entries@, old(self).entries@.len() as int),
            ),
    {
        if self.entries.len() == 0 {
            return;
        }
        let mut best: usize = 0;
        let mut n: usize = 1;
        while n < self.entries.len()
            invariant
                1 <= n <= self.entries@.len(),
                best == oldest(self.entries@, n as int),
                best < n,
                self.entries@ == old(self).entries@,
            decreases self.entries@.len() - n,
        {
            if self.entries[n].at < self.entries[best].at {
                best = n;
            }
            n += 1;
        }
        let _ = self.entries.remove(best);
    }
}

/// What was put under a key is what is taken out, once.
pub proof fn law_put_is_taken_once<T>(s: Seq<TimedEntry<T>>, e: TimedEntry<T>)
    requires
        forall|i: int, j: int|
            0 <= i < j < s.len() ==> key_of(#[trigger] s[i]) != key_of(#[trigger] s[j]),
    ensures
        ({
            let t = with_put(s, e);
            let k = place(t, key_of(e), 0);
            &&& k is Some
            &&& t[k->0] == e
            &&& place(t.remove(k->0), key_of(e), 0) is None
        }),
{
    let t = with_put(s, e);
    lemma_place(s, key_of(e), 0);
    let at = match place(s, key_of(e), 0) {
        Some(k) => k,
        None => s.len() as int,
    };
    assert(t[at] == e);
    assert forall|j: int| 0 <= j < t.len() && j != at implies key_of(#[trigger] t[j]) != key_of(
        e,
    ) by {
        if place(s, key_of(e), 0) is None {
            lemma_not_placed(s, key_of(e), 0, j);
        } else {
            if j < at {
                assert(key_of(s[j]) != key_of(s[at]));
            } else {
                assert(key_of(s[at]) != key_of(s[j]));
            }
        }
    }
    lemma_only_place(t, key_of(e), 0, at);
    let rest = t.remove(at);
    assert forall|j: int| 0 <= j < rest.len() implies key_of(#[trigger] rest[j]) != key_of(e) by {
        if j < at {
            assert(rest[j] == t[j]);
        } else {
            assert(rest[j] == t[j + 1]);
        }
    }
    lemma_place(rest, key_of(e), 0);
}

proof fn lemma_not_placed<T>(s: Seq<TimedEntry<T>>, key: Seq<Seq<char>>, k: int, j: int)
    requires
        place(s, key, k) is None,
        0 <= k <= j < s.len(),
    ensures
        key_of(s[j]) != key,
    decreases j - k,
{
    if k < j {
        lemma_not_placed(s, key, k + 1, j);
    }
}

proof fn lemma_only_place<T>(s: Seq<TimedEntry<T>>, key: Seq<Seq<char>>, k: int, at: int)
    requires
        0 <= k <= at < s.len(),
        key_of(s[at]) == key,
        forall|j: int| 0 <= j < s.len() && j != at ==> key_of(#[trigger] s[j]) != key,
    ensures
        place(s, key, k) == Some(at),
    decreases at - k,
{
    if k < at {
        assert(key_of(s[k]) != key);
        lemma_only_place(s, key, k + 1, at);
    }
}

/// The time since a moment and the moment add up to the present, or to the moment
/// where it lies ahead.
pub proof fn law_elapsed_time_leads_to_the_present(now: u64, at: u64)
    ensures
        at <= now ==> at + elapsed(now, at) == now,
        at > now ==> elapsed(now, at) == 0,
{
}

/// Pruning keeps the entries that are younger than the limit, all of them and no
/// others, in their order.
pub proof fn law_pruning_drops_the_old_entries<T>(s: Seq<TimedEntry<T>>, now: u64, ttl: u64, e: TimedEntry<T>)
    requires
        ttl > 0,
    ensures
        alive(s, now, ttl, s.len() as int).contains(e) <==> s.contains(e) && (now < e.at + ttl),
        (forall|i: int| 0 <= i < s.len() ==> now < (#[trigger] s[i]).at + ttl) ==> alive(
            s,
            now,
            ttl,
            s.len() as int,
        ) == s,
{
    lemma_alive(s, now, ttl, e, s.len() as int);
    if forall|i: int| 0 <= i < s.len() ==> now < (#[trigger] s[i]).at + ttl {
        lemma_all_alive(s, now, ttl, s.len() as int);
        assert(s.take(s.len() as int) =~= s);
    }
}

proof fn lemma_alive<T>(s: Seq<TimedEntry<T>>, now: u64, ttl: u64, e: TimedEntry<T>, n: int)
    requires
        ttl > 0,
        0 <= n <= s.len(),
    ensures
        alive(s, now, ttl, n).contains(e) <==> s.take(n).contains(e) && now < e.at + ttl,
        n == s.len() ==> s.take(n) == s,
    decreases n,
{
    assert(n == s.len() ==> s.take(n) =~= s);
    if n > 0 {
        lemma_alive(s, now, ttl, e, n - 1);
        let before = alive(s, now, ttl, n - 1);
        assert(s.take(n) =~= s.take(n - 1).push(s[n - 1]));
        lemma_push_contains(s.take(n - 1), s[n - 1], e);
        lemma_push_contains(before, s[n - 1], e);
    }
}

proof fn lemma_push_contains<A>(s: Seq<A>, x: A, e: A)
    ensures
        s.push(x).contains(e) <==> s.contains(e) || e == x,
{
    if s.contains(e) {
        let i = choose|i: int| 0 <= i < s.len() && s[i] == e;
        assert(s.push(x)[i] == e);
    }
    assert(s.push(x)[s.len() as int] == x);
    if s.push(x).contains(e) && e != x {
        let i = choose|i: int| 0 <= i < s.push(x).len() && s.push(x)[i] == e;
        assert(s[i] == e);
    }
}

proof fn lemma_all_alive<T>(s: Seq<TimedEntry<T>>, now: u64, ttl: u64, n: int)
    requires
        ttl > 0,
        0 <= n <= s.len(),
        forall|i: int| 0 <= i < s.len() ==> now < (#[trigger] s[i]).at + ttl,
    ensures
        alive(s, now, ttl, n) == s.take(n),
    decreases n,
{
    if n > 0 {
        lemma_all_alive(s, now, ttl, n - 1);
        assert(s.take(n) =~= s.take(n - 1).push(s[n - 1]));
    } else {
        assert(s.take(0) =~= Seq::empty());
    }
}

/// No entry is older than the oldest.
pub proof fn law_no_entry_is_older_than_the_oldest<T>(s: Seq<TimedEntry<T>>, n: int, i: int)
    requires
        0 <= i < n <= s.len(),
    ensures
        0 <= oldest(s, n) < n,
        s[oldest(s, n)].at <= s[i].at,
        i < oldest(s, n) ==> s[oldest(s, n)].at < s[i].at,
    decreases n,
{
    if n > 1 {
        let j = if i < n - 1 {
            i
        } else {
            0
        };
        law_no_entry_is_older_than_the_oldest(s, n - 1, j);
        law_no_entry_is_older_than_the_oldest(s, n - 1, oldest(s, n - 1));
    }
}

/// Putting a value under one key leaves what is under the others.
pub proof fn law_put_leaves_other_keys<T>(s: Seq<TimedEntry<T>>, e: TimedEntry<T>, i: int)
    requires
        0 <= i < s.len(),
        key_of(s[i]) != key_of(e),
    ensures
        i < with_put(s, e).len(),
        with_put(s, e)[i] == s[i],
        with_put(s, e).len() == s.len() + (if exists|k: int|
            0 <= k < s.len() && key_of(#[trigger] s[k]) == key_of(e) {
            0int
        } else {
            1
        }),
{
    lemma_place(s, key_of(e), 0);
    if place(s, key_of(e), 0) is None {
        assert forall|k: int| 0 <= k < s.len() implies key_of(#[trigger] s[k]) != key_of(e) by {
            lemma_not_placed(s, key_of(e), 0, k);
        }
    } else {
        assert(key_of(s[place(s, key_of(e), 0)->0]) == key_of(e));
    }
}

} // verus!
