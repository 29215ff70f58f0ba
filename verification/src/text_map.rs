//! An ordered map with text keys, kept as a sorted vector.
use vstd::prelude::*;
use vstd::string::*;
use vstd::utf8::*;

use crate::text;

verus! {

/// Lexicographic order of byte sequences.
pub open spec fn byte_less(a: Seq<u8>, b: Seq<u8>) -> bool
    decreases a.len(),
{
    if b.len() == 0 {
        false
    } else if a.len() == 0 {
        true
    } else if a[0] != b[0] {
        a[0] < b[0]
    } else {
        byte_less(a.drop_first(), b.drop_first())
    }
}

/// The order of texts: that of their UTF-8 bytes.
pub open spec fn text_less(a: Seq<char>, b: Seq<char>) -> bool {
    byte_less(encode_utf8(a), encode_utf8(b))
}

#[derive(Debug)]
pub enum TextOrder {
    Less,
    Equal,
    Greater,
}

pub proof fn lemma_byte_less_irreflexive(a: Seq<u8>)
    ensures
        !byte_less(a, a),
    decreases a.len(),
{
    if a.len() > 0 {
        lemma_byte_less_irreflexive(a.drop_first());
    }
}

pub proof fn lemma_byte_less_transitive(a: Seq<u8>, b: Seq<u8>, c: Seq<u8>)
    requires
        byte_less(a, b),
        byte_less(b, c),
    ensures
        byte_less(a, c),
    decreases a.len(),
{
    if a.len() > 0 && b.len() > 0 && c.len() > 0 && a[0] == b[0] && b[0] == c[0] {
        lemma_byte_less_transitive(a.drop_first(), b.drop_first(), c.drop_first());
    }
}

pub proof fn lemma_byte_less_total(a: Seq<u8>, b: Seq<u8>)
    ensures
        byte_less(a, b) || byte_less(b, a) || a == b,
    decreases a.len(),
{
    if a.len() > 0 && b.len() > 0 && a[0] == b[0] {
        lemma_byte_less_total(a.drop_first(), b.drop_first());
        if a.drop_first() == b.drop_first() {
            assert(a =~= seq![a[0]] + a.drop_first());
            assert(b =~= seq![b[0]] + b.drop_first());
        }
    } else if a.len() == 0 && b.len() == 0 {
        assert(a =~= b);
    }
}

pub proof fn lemma_text_less_transitive(a: Seq<char>, b: Seq<char>, c: Seq<char>)
    requires
        text_less(a, b),
        text_less(b, c),
    ensures
        text_less(a, c),
{
    lemma_byte_less_transitive(encode_utf8(a), encode_utf8(b), encode_utf8(c));
}

pub proof fn lemma_text_less_irreflexive(a: Seq<char>)
    ensures
        !text_less(a, a),
{
    lemma_byte_less_irreflexive(encode_utf8(a));
}

/// Texts of which each stands before the next.
pub open spec fn ascending(s: Seq<Seq<char>>) -> bool {
    forall|i: int, j: int| 0 <= i < j < s.len() ==> text_less(#[trigger] s[i], #[trigger] s[j])
}

/// Ascending texts are known by what they hold.
pub proof fn lemma_ascending_unique(a: Seq<Seq<char>>, b: Seq<Seq<char>>)
    requires
        ascending(a),
        ascending(b),
        forall|x: Seq<char>| a.contains(x) <==> b.contains(x),
    ensures
        a == b,
    decreases a.len(),
{
    if a.len() == 0 {
        if b.len() > 0 {
            assert(b.contains(b[0]));
        }
        assert(a =~= b);
    } else {
        assert(a.contains(a.last()));
        assert(b.contains(a.last()));
        assert(b.contains(b.last()));
        assert(a.contains(b.last()));
        let i = choose|i: int| 0 <= i < b.len() && b[i] == a.last();
        let j = choose|j: int| 0 <= j < a.len() && a[j] == b.last();
        if i < b.len() - 1 && j < a.len() - 1 {
            assert(text_less(b[i], b[b.len() - 1]));
            assert(text_less(a[j], a[a.len() - 1]));
            lemma_text_less_transitive(a.last(), b.last(), a.last());
            lemma_text_less_irreflexive(a.last());
        }
        assert(a.last() == b.last());
        let c = a.drop_last();
        let d = b.drop_last();
        assert forall|x: Seq<char>| c.contains(x) <==> d.contains(x) by {
            if c.contains(x) {
                let k = choose|k: int| 0 <= k < c.len() && c[k] == x;
                assert(a[k] == x);
                assert(a.contains(x));
                assert(text_less(a[k], a[a.len() - 1]));
                lemma_text_less_irreflexive(x);
                let m = choose|m: int| 0 <= m < b.len() && b[m] == x;
                assert(d[m] == x);
            }
            if d.contains(x) {
                let k = choose|k: int| 0 <= k < d.len() && d[k] == x;
                assert(b[k] == x);
                assert(b.contains(x));
                assert(text_less(b[k], b[b.len() - 1]));
                lemma_text_less_irreflexive(x);
                let m = choose|m: int| 0 <= m < a.len() && a[m] == x;
                assert(c[m] == x);
            }
        }
        lemma_ascending_unique(c, d);
        assert(a =~= c.push(a.last()));
        assert(b =~= d.push(b.last()));
    }
}

/// Compares two texts by their bytes.
pub fn order_of(a: &str, b: &str) -> (r: TextOrder)
    ensures
        match r {
            TextOrder::Less => text_less(a@, b@),
            TextOrder::Equal => a@ == b@,
            TextOrder::Greater => text_less(b@, a@),
        },
{
    let x = a.as_bytes();
    let y = b.as_bytes();
    let r = order_of_bytes(x, y);
    proof {
        if r is Equal {
            text::lemma_utf8_injective(a@, b@);
        }
    }
    r
}

pub fn order_of_bytes(x: &[u8], y: &[u8]) -> (r: TextOrder)
    ensures
        match r {
            TextOrder::Less => byte_less(x@, y@),
            TextOrder::Equal => x@ == y@,
            TextOrder::Greater => byte_less(y@, x@),
        },
{
    let mut i: usize = 0;
    proof {
        assert(x@.skip(0) =~= x@);
        assert(y@.skip(0) =~= y@);
    }
    while i < x.len() && i < y.len()
        invariant
            i <= x@.len(),
            i <= y@.len(),
            x@.take(i as int) == y@.take(i as int),
            byte_less(x@, y@) == byte_less(x@.skip(i as int), y@.skip(i as int)),
            byte_less(y@, x@) == byte_less(y@.skip(i as int), x@.skip(i as int)),
        decreases x@.len() - i,
    {
        proof {
            assert(x@.skip(i as int)[0] == x@[i as int]);
            assert(y@.skip(i as int)[0] == y@[i as int]);
            assert(x@.skip(i as int).drop_first() =~= x@.skip(i + 1));
            assert(y@.skip(i as int).drop_first() =~= y@.skip(i + 1));
            assert(x@.take(i + 1) =~= x@.take(i as int).push(x@[i as int]));
            assert(y@.take(i + 1) =~= y@.take(i as int).push(y@[i as int]));
        }
        if x[i] < y[i] {
            return TextOrder::Less;
        }
        if x[i] > y[i] {
            return TextOrder::Greater;
        }
        i += 1;
    }
    if i < y.len() {
        TextOrder::Less
    } else if i < x.len() {
        TextOrder::Greater
    } else {
        proof {
            assert(x@.take(i as int) =~= x@);
            assert(y@.take(i as int) =~= y@);
        }
        TextOrder::Equal
    }
}

/// A map from texts to values whose entries stand in text order.
#[derive(Debug)]
pub struct TextMap<V> {
    pub entries: Vec<(String, V)>,
}

impl<V> TextMap<V> {
    /// The keys, in order.
    pub open spec fn keys(&self) -> Seq<Seq<char>> {
        Seq::new(self.entries@.len(), |i: int| self.entries@[i].0@)
    }

    /// Every key stands before the next.
    pub open spec fn wf(&self) -> bool {
        forall|i: int, j: int|
            0 <= i < j < self.keys().len() ==> text_less(
                #[trigger] self.keys()[i],
                #[trigger] self.keys()[j],
            )
    }

    pub open spec fn position(&self, key: Seq<char>) -> int {
        choose|i: int| 0 <= i < self.keys().len() && #[trigger] self.keys()[i] == key
    }

    pub open spec fn view(&self) -> Map<Seq<char>, V> {
        Map::new(
            |key: Seq<char>| self.keys().contains(key),
            |key: Seq<char>| self.entries@[self.position(key)].1,
        )
    }

    pub proof fn lemma_at(&self, i: int)
        requires
            self.wf(),
            0 <= i < self.entries@.len(),
        ensures
            self@.contains_key(self.keys()[i]),
            self@[self.keys()[i]] == self.entries@[i].1,
            self.position(self.keys()[i]) == i,
    {
        let key = self.keys()[i];
        let p = self.position(key);
        assert(self.keys()[i] == key);
        assert(0 <= p < self.keys().len() && self.keys()[p] == key);
        lemma_text_less_irreflexive(key);
        if p < i {
            assert(text_less(self.keys()[p], self.keys()[i]));
        } else if i < p {
            assert(text_less(self.keys()[i], self.keys()[p]));
        }
    }

    /// The map holds as many keys as it has entries.
    pub proof fn lemma_len(&self)
        requires
            self.wf(),
        ensures
            self@.dom().finite(),
            self@.dom().len() == self.entries@.len(),
    {
        let keys = self.keys();
        assert(keys.no_duplicates()) by {
            assert forall|i: int, j: int|
                0 <= i < keys.len() && 0 <= j < keys.len() && i != j implies keys[i]
                != keys[j] by {
                lemma_text_less_irreflexive(keys[i]);
                if i < j {
                    assert(text_less(keys[i], keys[j]));
                } else {
                    assert(text_less(keys[j], keys[i]));
                }
            }
        }
        keys.unique_seq_to_set();
        assert(self@.dom() =~= keys.to_set());
    }

    pub fn new() -> (m: Self)
        ensures
            m.wf(),
            m.entries@.len() == 0,
            m@ == Map::<Seq<char>, V>::empty(),
    {
        let m = TextMap { entries: Vec::new() };
        proof {
            assert(m@ =~= Map::<Seq<char>, V>::empty());
        }
        m
    }

    pub fn len(&self) -> (n: usize)
        ensures
            n == self.entries@.len(),
    {
        self.entries.len()
    }

    /// Where `key` stands, or where it would be put.
    pub fn locate(&self, key: &str) -> (r: (bool, usize))
        requires
            self.wf(),
        ensures
            r.1 <= self.entries@.len(),
            r.0 == self@.contains_key(key@),
            r.0 ==> r.1 < self.entries@.len() && self.keys()[r.1 as int] == key@
                && self.position(key@) == r.1,
            !r.0 ==> forall|j: int| 0 <= j < r.1 ==> text_less(#[trigger] self.keys()[j], key@),
            !r.0 ==> forall|j: int|
                r.1 <= j < self.entries@.len() ==> text_less(key@, #[trigger] self.keys()[j]),
    {
        let mut lo: usize = 0;
        let mut hi: usize = self.entries.len();
        while lo < hi
            invariant
                self.wf(),
                lo <= hi <= self.entries@.len(),
                forall|j: int| 0 <= j < lo ==> text_less(#[trigger] self.keys()[j], key@),
                forall|j: int|
                    hi <= j < self.entries@.len() ==> text_less(key@, #[trigger] self.keys()[j]),
            decreases hi - lo,
        {
            let mid: usize = lo + (hi - lo) / 2;
            let ghost pivot = self.keys()[mid as int];
            match order_of(self.entries[mid].0.as_str(), key) {
                TextOrder::Equal => {
                    proof {
                        self.lemma_at(mid as int);
                    }
                    return (true, mid);
                },
                TextOrder::Less => {
                    proof {
                        assert forall|j: int| 0 <= j < mid + 1 implies text_less(
                            #[trigger] self.keys()[j],
                            key@,
                        ) by {
                            if j < mid {
                                lemma_text_less_transitive(self.keys()[j], pivot, key@);
                            }
                        }
                    }
                    lo = mid + 1;
                },
                TextOrder::Greater => {
                    proof {
                        assert forall|j: int| mid <= j < self.entries@.len() implies text_less(
                            key@,
                            #[trigger] self.keys()[j],
                        ) by {
                            if mid < j {
                                lemma_text_less_transitive(key@, pivot, self.keys()[j]);
                            }
                        }
                    }
                    hi = mid;
                },
            }
        }
        proof {
            if self.keys().contains(key@) {
                let j = choose|j: int| 0 <= j < self.keys().len() && self.keys()[j] == key@;
                lemma_text_less_irreflexive(key@);
                assert(text_less(self.keys()[j], key@) || text_less(key@, self.keys()[j]));
            }
        }
        (false, lo)
    }

    pub fn contains(&self, key: &str) -> (r: bool)
        requires
            self.wf(),
        ensures
            r == self@.contains_key(key@),
    {
        self.locate(key).0
    }

    pub fn get(&self, key: &str) -> (r: Option<&V>)
        requires
            self.wf(),
        ensures
            match r {
                Some(v) => self@.contains_key(key@) && *v == self@[key@],
                None => !self@.contains_key(key@),
            },
    {
        let (found, at) = self.locate(key);
        if found {
            proof {
                self.lemma_at(at as int);
            }
            Some(&self.entries[at].1)
        } else {
            None
        }
    }

    /// Puts `value` under `key`, in place of what stood there.
    pub fn insert(&mut self, key: String, value: V)
        requires
            old(self).wf(),
        ensures
            final(self).wf(),
            final(self)@ == old(self)@.insert(key@, value),
            final(self).entries@.len() == old(self).entries@.len() + (if old(self)@.contains_key(
                key@,
            ) {
                0int
            } else {
                1
            }),
    {
        let (found, at) = self.locate(key.as_str());
        let ghost before = *self;
        let ghost want = before@.insert(key@, value);
        if found {
            let entry = (key, value);
            self.entries[at] = entry;
            proof {
                assert(self.keys() =~= before.keys());
                assert forall|k: Seq<char>| #[trigger] self@.contains_key(k) implies self@[k]
                    == want[k] by {
                    let i = choose|i: int|
                        0 <= i < self.keys().len() && #[trigger] self.keys()[i] == k;
                    self.lemma_at(i);
                    before.lemma_at(i);
                    if i != at {
                        before.lemma_at(at as int);
                    }
                }
                assert(self@ =~= want);
            }
        } else {
            let entry = (key, value);
            self.entries.insert(at, entry);
            proof {
                assert(self.keys() =~= before.keys().insert(at as int, key@));
                assert forall|i: int, j: int| 0 <= i < j < self.keys().len() implies text_less(
                    #[trigger] self.keys()[i],
                    #[trigger] self.keys()[j],
                ) by {
                    let bi = if i < at { i } else { i - 1 };
                    let bj = if j < at { j } else { j - 1 };
                    if i == at {
                        assert(self.keys()[j] == before.keys()[bj]);
                    } else if j == at {
                        assert(self.keys()[i] == before.keys()[bi]);
                    } else {
                        assert(self.keys()[i] == before.keys()[bi]);
                        assert(self.keys()[j] == before.keys()[bj]);
                    }
                }
                assert forall|k: Seq<char>| self@.contains_key(k) <==> want.contains_key(k) by {
                    if self@.contains_key(k) {
                        let i = choose|i: int|
                            0 <= i < self.keys().len() && #[trigger] self.keys()[i] == k;
                        if i != at {
                            let bi = if i < at { i } else { i - 1 };
                            assert(before.keys()[bi] == k);
                        }
                    }
                    if want.contains_key(k) {
                        if k == key@ {
                            assert(self.keys()[at as int] == k);
                        } else {
                            let bi = choose|i: int|
                                0 <= i < before.keys().len() && #[trigger] before.keys()[i] == k;
                            let i = if bi < at { bi } else { bi + 1 };
                            assert(self.keys()[i] == k);
                        }
                    }
                }
                assert forall|k: Seq<char>| #[trigger] self@.contains_key(k) implies self@[k]
                    == want[k] by {
                    let i = choose|i: int|
                        0 <= i < self.keys().len() && #[trigger] self.keys()[i] == k;
                    self.lemma_at(i);
                    if i != at {
                        let bi = if i < at { i } else { i - 1 };
                        before.lemma_at(bi);
                        lemma_text_less_irreflexive(k);
                    }
                }
                assert(self@ =~= want);
            }
        }
    }

    /// Takes `key` out, and says whether it was there.
    pub fn remove(&mut self, key: &str) -> (r: bool)
        requires
            old(self).wf(),
        ensures
            final(self).wf(),
            r == old(self)@.contains_key(key@),
            final(self)@ == old(self)@.remove(key@),
    {
        let (found, at) = self.locate(key);
        let ghost before = *self;
        let ghost want = before@.remove(key@);
        if found {
            self.entries.remove(at);
            proof {
                assert(self.keys() =~= before.keys().remove(at as int));
                assert forall|i: int, j: int| 0 <= i < j < self.keys().len() implies text_less(
                    #[trigger] self.keys()[i],
                    #[trigger] self.keys()[j],
                ) by {
                    let bi = if i < at { i } else { i + 1 };
                    let bj = if j < at { j } else { j + 1 };
                    assert(self.keys()[i] == before.keys()[bi]);
                    assert(self.keys()[j] == before.keys()[bj]);
                }
                before.lemma_at(at as int);
                assert forall|k: Seq<char>| self@.contains_key(k) <==> want.contains_key(k) by {
                    if self@.contains_key(k) {
                        let i = choose|i: int|
                            0 <= i < self.keys().len() && #[trigger] self.keys()[i] == k;
                        let bi = if i < at { i } else { i + 1 };
                        assert(before.keys()[bi] == k);
                        before.lemma_at(bi);
                    }
                    if want.contains_key(k) {
                        let bi = choose|i: int|
                            0 <= i < before.keys().len() && #[trigger] before.keys()[i] == k;
                        let i = if bi < at { bi } else { bi - 1 };
                        assert(self.keys()[i] == k);
                    }
                }
                assert forall|k: Seq<char>| #[trigger] self@.contains_key(k) implies self@[k]
                    == want[k] by {
                    let i = choose|i: int|
                        0 <= i < self.keys().len() && #[trigger] self.keys()[i] == k;
                    self.lemma_at(i);
                    let bi = if i < at { i } else { i + 1 };
                    before.lemma_at(bi);
                }
                assert(self@ =~= want);
            }
        } else {
            proof {
                assert(before@ =~= want);
            }
        }
        found
    }
}

} // verus!
