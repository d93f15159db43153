//! An ordered map whose keys are texts.

use vstd::prelude::*;

use crate::text;

verus! {

/// A map from texts to values, held in the order of its keys.
pub struct TextMap<V> {
    pub entries: Vec<(String, V)>,
}

impl<V> TextMap<V> {
    /// The key of the entry at a position.
    pub open spec fn key_at(&self, i: int) -> Seq<char> {
        self.entries@[i].0@
    }

    /// The keys are strictly increasing.
    pub open spec fn wf(&self) -> bool {
        forall|i: int, j: int|
            0 <= i < j < self.entries@.len() ==> text::text_before(#[trigger] self.key_at(i), #[trigger] self.key_at(j))
    }

    /// Whether a key has an entry at a position.
    pub open spec fn holds_at(&self, key: Seq<char>, i: int) -> bool {
        0 <= i < self.entries@.len() && self.key_at(i) == key
    }

    /// Whether a key has an entry.
    pub open spec fn has(&self, key: Seq<char>) -> bool {
        exists|i: int| self.holds_at(key, i)
    }

    /// The entries as a mathematical map.
    pub open spec fn view(&self) -> Map<Seq<char>, V> {
        Map::new(
            |key: Seq<char>| self.has(key),
            |key: Seq<char>| self.entries@[choose|i: int| self.holds_at(key, i)].1,
        )
    }

    /// Two positions that hold the same key are the same position.
    pub proof fn lemma_unique(&self, i: int, j: int)
        requires
            self.wf(),
            0 <= i < self.entries@.len(),
            0 <= j < self.entries@.len(),
            self.key_at(i) == self.key_at(j),
        ensures
            i == j,
    {
        text::lemma_before_irreflexive(self.key_at(i));
        if i < j {
            assert(text::text_before(self.key_at(i), self.key_at(j)));
        }
        if j < i {
            assert(text::text_before(self.key_at(j), self.key_at(i)));
        }
    }

    /// The value that the map holds under the key of a position is the one at that position.
    pub proof fn lemma_at(&self, i: int)
        requires
            self.wf(),
            0 <= i < self.entries@.len(),
        ensures
            self@.contains_key(self.key_at(i)),
            self@[self.key_at(i)] == self.entries@[i].1,
    {
        let key = self.key_at(i);
        assert(self.holds_at(key, i));
        let j = choose|j: int| self.holds_at(key, j);
        self.lemma_unique(i, j);
    }

    /// The map without entries.
    pub fn new() -> (r: Self)
        ensures
            r.wf(),
            r@ == Map::<Seq<char>, V>::empty(),
            r.entries@.len() == 0,
    {
        let r = TextMap { entries: Vec::new() };
        proof {
            assert(r@ =~= Map::<Seq<char>, V>::empty());
        }
        r
    }

    /// Whether the keys are strictly increasing.
    pub fn is_valid(&self) -> (r: bool)
        ensures
            r == self.wf(),
    {
        let mut i: usize = 1;
        while i < self.entries.len()
            invariant
                1 <= i,
                i <= self.entries@.len() || self.entries@.len() == 0,
                forall|j: int, k: int|
                    0 <= j < k < i && k < self.entries@.len() ==> text::text_before(
                        #[trigger] self.key_at(j),
                        #[trigger] self.key_at(k),
                    ),
            decreases self.entries@.len() - i,
        {
            if !text::before(self.entries[i - 1].0.as_str(), self.entries[i].0.as_str()) {
                proof {
                    assert(!text::text_before(self.key_at(i - 1), self.key_at(i as int)));
                }
                return false;
            }
            proof {
                assert forall|j: int, k: int|
                    0 <= j < k < i + 1 && k < self.entries@.len() implies text::text_before(
                    #[trigger] self.key_at(j),
                    #[trigger] self.key_at(k),
                ) by {
                    if k == i && j < i - 1 {
                        text::lemma_before_transitive(self.key_at(j), self.key_at(i - 1), self.key_at(k));
                    }
                }
            }
            i += 1;
        }
        true
    }

    /// How many entries there are.
    pub fn len(&self) -> (r: usize)
        ensures
            r == self.entries@.len(),
    {
        self.entries.len()
    }

    /// Where a key stands, or where it would be put.
    fn place(&self, key: &str) -> (r: (usize, bool))
        requires
            self.wf(),
        ensures
            r.0 <= self.entries@.len(),
            forall|i: int| 0 <= i < r.0 ==> text::text_before(#[trigger] self.key_at(i), key@),
            r.1 ==> r.0 < self.entries@.len() && self.key_at(r.0 as int) == key@,
            !r.1 ==> forall|i: int| r.0 <= i < self.entries@.len() ==> text::text_before(key@, #[trigger] self.key_at(i)),
            r.1 == self.has(key@),
    {
        let mut at: usize = 0;
        while at < self.entries.len() && text::before(self.entries[at].0.as_str(), key)
            invariant
                at <= self.entries@.len(),
                forall|i: int| 0 <= i < at ==> text::text_before(#[trigger] self.key_at(i), key@),
            decreases self.entries@.len() - at,
        {
            at += 1;
        }
        let found = at < self.entries.len() && text::same(self.entries[at].0.as_str(), key);
        proof {
            if found {
                assert(self.holds_at(key@, at as int));
            } else {
                assert forall|i: int| at <= i < self.entries@.len() implies text::text_before(
                    key@,
                    #[trigger] self.key_at(i),
                ) by {
                    text::lemma_before_total(self.key_at(at as int), key@);
                    if i > at {
                        text::lemma_before_transitive(key@, self.key_at(at as int), self.key_at(i));
                    }
                }
                if self.has(key@) {
                    let j = choose|j: int| self.holds_at(key@, j);
                    text::lemma_before_irreflexive(key@);
                    if j < at {
                        assert(text::text_before(self.key_at(j), key@));
                    } else {
                        assert(text::text_before(key@, self.key_at(j)));
                    }
                }
            }
        }
        (at, found)
    }

    /// Whether a key has an entry.
    pub fn contains_key(&self, key: &str) -> (r: bool)
        requires
            self.wf(),
        ensures
            r == self@.contains_key(key@),
    {
        self.place(key).1
    }

    /// The value under a key.
    pub fn get(&self, key: &str) -> (r: Option<&V>)
        requires
            self.wf(),
        ensures
            r is Some <==> self@.contains_key(key@),
            r matches Some(value) ==> *value == self@[key@],
    {
        let (at, found): (usize, bool) = self.place(key);
        if found {
            proof {
                self.lemma_at(at as int);
            }
            Some(&self.entries[at].1)
        } else {
            None
        }
    }

    /// Puts a value under a key, in place of the one that was there.
    pub fn insert(&mut self, key: String, value: V)
        requires
            old(self).wf(),
        ensures
            final(self).wf(),
            final(self)@ == old(self)@.insert(key@, value),
    {
        let ghost before = *self;
        let (at, found): (usize, bool) = self.place(key.as_str());
        let ghost added = key@;
        if found {
            let _ = self.entries.remove(at);
            self.entries.insert(at, (key, value));
            proof {
                assert forall|i: int| 0 <= i < self.entries@.len() implies #[trigger] self.key_at(i) == before.key_at(i) by {}
                assert forall|k: Seq<char>| self.has(k) == (before.has(k) || k == added) by {
                    if self.has(k) {
                        let i = choose|i: int| self.holds_at(k, i);
                        assert(before.holds_at(k, i));
                    }
                    if before.has(k) {
                        let i = choose|i: int| before.holds_at(k, i);
                        assert(self.holds_at(k, i));
                    }
                    if k == added {
                        assert(self.holds_at(k, at as int));
                    }
                }
                assert forall|k: Seq<char>| self.has(k) implies self@[k] == before@.insert(added, value)[k] by {
                    let i = choose|i: int| self.holds_at(k, i);
                    self.lemma_at(i);
                    before.lemma_at(i);
                    if k == added {
                        self.lemma_unique(i, at as int);
                    } else {
                        assert(i != at);
                    }
                }
                assert(self@ =~= before@.insert(added, value));
            }
        } else {
            self.entries.insert(at, (key, value));
            proof {
                assert forall|i: int, j: int| 0 <= i < j < self.entries@.len() implies text::text_before(
                    #[trigger] self.key_at(i),
                    #[trigger] self.key_at(j),
                ) by {
                    if i < at {
                        assert(self.key_at(i) == before.key_at(i));
                    } else if i > at {
                        assert(self.key_at(i) == before.key_at(i - 1));
                    }
                    if j < at {
                        assert(self.key_at(j) == before.key_at(j));
                    } else if j > at {
                        assert(self.key_at(j) == before.key_at(j - 1));
                    }
                }
                assert forall|k: Seq<char>| self.has(k) == (before.has(k) || k == added) by {
                    if self.has(k) {
                        let i = choose|i: int| self.holds_at(k, i);
                        if i < at {
                            assert(before.holds_at(k, i));
                        } else if i > at {
                            assert(before.holds_at(k, i - 1));
                        }
                    }
                    if before.has(k) {
                        let i = choose|i: int| before.holds_at(k, i);
                        if i < at {
                            assert(self.holds_at(k, i));
                        } else {
                            assert(self.holds_at(k, i + 1));
                        }
                    }
                    if k == added {
                        assert(self.holds_at(k, at as int));
                    }
                }
                assert forall|k: Seq<char>| self.has(k) implies self@[k] == before@.insert(added, value)[k] by {
                    let i = choose|i: int| self.holds_at(k, i);
                    self.lemma_at(i);
                    if i < at {
                        before.lemma_at(i);
                        assert(before.holds_at(k, i));
                    } else if i > at {
                        before.lemma_at(i - 1);
                        assert(before.holds_at(k, i - 1));
                    }
                }
                assert(self@ =~= before@.insert(added, value));
            }
        }
    }

    /// Takes the value under a key out of the map.
    pub fn remove(&mut self, key: &str) -> (r: Option<V>)
        requires
            old(self).wf(),
        ensures
            final(self).wf(),
            final(self)@ == old(self)@.remove(key@),
            r is Some <==> old(self)@.contains_key(key@),
            r matches Some(value) ==> value == old(self)@[key@],
    {
        let ghost before = *self;
        let (at, found): (usize, bool) = self.place(key);
        if !found {
            proof {
                assert(self@ =~= before@.remove(key@));
            }
            return None;
        }
        let entry = self.entries.remove(at);
        proof {
            before.lemma_at(at as int);
            assert forall|i: int, j: int| 0 <= i < j < self.entries@.len() implies text::text_before(
                #[trigger] self.key_at(i),
                #[trigger] self.key_at(j),
            ) by {
                assert(self.key_at(i) == before.key_at(if i < at { i } else { i + 1 }));
                assert(self.key_at(j) == before.key_at(if j < at { j } else { j + 1 }));
            }
            assert forall|k: Seq<char>| self.has(k) == (before.has(k) && k != key@) by {
                if self.has(k) {
                    let i = choose|i: int| self.holds_at(k, i);
                    let b = if i < at { i } else { i + 1 };
                    assert(before.holds_at(k, b));
                    if k == key@ {
                        before.lemma_unique(b, at as int);
                    }
                }
                if before.has(k) && k != key@ {
                    let i = choose|i: int| before.holds_at(k, i);
                    assert(self.holds_at(k, if i < at { i } else { i - 1 }));
                }
            }
            assert forall|k: Seq<char>| self.has(k) implies self@[k] == before@.remove(key@)[k] by {
                let i = choose|i: int| self.holds_at(k, i);
                self.lemma_at(i);
                let b = if i < at { i } else { i + 1 };
                before.lemma_at(b);
                assert(before.holds_at(k, b));
            }
            assert(self@ =~= before@.remove(key@));
        }
        Some(entry.1)
    }

    /// The keys of two maps that are the same stand in the same order, up to a position.
    proof fn lemma_same_keys(a: Self, b: Self, n: int)
        requires
            a.wf(),
            b.wf(),
            a@ == b@,
            0 <= n <= a.entries@.len(),
            0 <= n <= b.entries@.len(),
        ensures
            forall|i: int| 0 <= i < n ==> #[trigger] a.key_at(i) == b.key_at(i),
        decreases n,
    {
        if n > 0 {
            Self::lemma_same_keys(a, b, n - 1);
            let x = a.key_at(n - 1);
            let y = b.key_at(n - 1);
            if x != y {
                a.lemma_at(n - 1);
                b.lemma_at(n - 1);
                assert(b@.contains_key(x) && a@.contains_key(y));
                let j = choose|j: int| b.holds_at(x, j);
                let k = choose|k: int| a.holds_at(y, k);
                if j < n - 1 {
                    assert(a.key_at(j) == b.key_at(j));
                    a.lemma_unique(j, n - 1);
                }
                if k < n - 1 {
                    assert(a.key_at(k) == b.key_at(k));
                    b.lemma_unique(k, n - 1);
                }
                assert(text::text_before(b.key_at(n - 1), b.key_at(j)));
                assert(text::text_before(a.key_at(n - 1), a.key_at(k)));
                text::lemma_before_transitive(x, y, x);
                text::lemma_before_irreflexive(x);
            }
        }
    }

    /// Two maps that are the same hold the same entries in the same order.
    pub proof fn lemma_same_entries(a: Self, b: Self)
        requires
            a.wf(),
            b.wf(),
            a@ == b@,
        ensures
            a.entries@.len() == b.entries@.len(),
            forall|i: int|
                0 <= i < a.entries@.len() ==> #[trigger] a.key_at(i) == b.key_at(i) && a.entries@[i].1 == b.entries@[i].1,
    {
        let n = a.entries@.len() as int;
        let m = b.entries@.len() as int;
        let least = if n < m {
            n
        } else {
            m
        };
        Self::lemma_same_keys(a, b, least);
        if n < m {
            b.lemma_at(n);
            let x = b.key_at(n);
            assert(a@.contains_key(x));
            let j = choose|j: int| a.holds_at(x, j);
            assert(a.key_at(j) == b.key_at(j));
            b.lemma_unique(j, n);
        }
        if m < n {
            a.lemma_at(m);
            let x = a.key_at(m);
            assert(b@.contains_key(x));
            let j = choose|j: int| b.holds_at(x, j);
            assert(a.key_at(j) == b.key_at(j));
            a.lemma_unique(j, m);
        }
        assert forall|i: int| 0 <= i < n implies #[trigger] a.key_at(i) == b.key_at(i) && a.entries@[i].1
            == b.entries@[i].1 by {
            a.lemma_at(i);
            b.lemma_at(i);
        }
    }
}

} // verus!
