//! A map keyed by text, kept as a vector of pairs with unique keys.
use crate::text::text_eq;
use vstd::prelude::*;

verus! {

/// The map that a sequence of pairs with unique keys stands for.
pub open spec fn map_of<V>(s: Seq<(String, V)>) -> Map<Seq<char>, V>
    decreases s.len(),
{
    if s.len() == 0 {
        Map::empty()
    } else {
        map_of(s.drop_last()).insert(s.last().0@, s.last().1)
    }
}

pub open spec fn keys_unique<V>(s: Seq<(String, V)>) -> bool {
    forall|i: int, j: int| 0 <= i < s.len() && 0 <= j < s.len() && i != j ==> s[i].0@ != s[j].0@
}

pub proof fn lemma_map_of<V>(s: Seq<(String, V)>)
    requires
        keys_unique(s),
    ensures
        forall|k: Seq<char>| #[trigger] map_of(s).contains_key(k) <==> exists|i: int| 0 <= i < s.len() && s[i].0@ == k,
        forall|i: int| 0 <= i < s.len() ==> #[trigger] map_of(s)[s[i].0@] == s[i].1,
    decreases s.len(),
{
    if s.len() > 0 {
        let p = s.drop_last();
        assert(keys_unique(p)) by {
            assert forall|i: int, j: int| 0 <= i < p.len() && 0 <= j < p.len() && i != j implies p[i].0@ != p[j].0@ by {
                assert(p[i] == s[i] && p[j] == s[j]);
            }
        }
        lemma_map_of(p);
        assert(map_of(s) == map_of(p).insert(s.last().0@, s.last().1));
        assert forall|k: Seq<char>| #[trigger] map_of(s).contains_key(k) implies exists|i: int| 0 <= i < s.len() && s[i].0@ == k by {
            if k != s.last().0@ {
                assert(map_of(p).contains_key(k));
                let i = choose|i: int| 0 <= i < p.len() && p[i].0@ == k;
                assert(s[i] == p[i]);
            } else {
                assert(s[s.len() - 1].0@ == k);
            }
        }
        assert forall|i: int| 0 <= i < s.len() implies #[trigger] map_of(s)[s[i].0@] == s[i].1 by {
            if i < s.len() - 1 {
                assert(s[i] == p[i]);
                assert(s[i].0@ != s.last().0@);
            }
        }
        assert forall|k: Seq<char>| (exists|i: int| 0 <= i < s.len() && s[i].0@ == k) implies #[trigger] map_of(s).contains_key(k) by {
            let i = choose|i: int| 0 <= i < s.len() && s[i].0@ == k;
            if i < s.len() - 1 {
                assert(s[i] == p[i]);
            }
        }
    }
}

/// A finite map from text keys to values.
pub struct TextMap<V> {
    entries: Vec<(String, V)>,
}

impl<V> View for TextMap<V> {
    type V = Map<Seq<char>, V>;

    open spec fn view(&self) -> Map<Seq<char>, V> {
        map_of(self.pairs())
    }
}

impl<V> TextMap<V> {
    /// The pairs, in insertion order.
    pub closed spec fn pairs(&self) -> Seq<(String, V)> {
        self.entries@
    }

    /// Keys are unique.
    pub open spec fn wf(&self) -> bool {
        keys_unique(self.pairs())
    }

    /// How the pairs and the map relate.
    pub proof fn lemma_view(&self)
        requires
            self.wf(),
        ensures
            forall|k: Seq<char>| #[trigger] self@.contains_key(k) <==> exists|i: int| 0 <= i < self.pairs().len() && self.pairs()[i].0@ == k,
            forall|i: int| 0 <= i < self.pairs().len() ==> #[trigger] self@[self.pairs()[i].0@] == self.pairs()[i].1,
            self.pairs().len() == 0 <==> self@ == Map::<Seq<char>, V>::empty(),
    {
        lemma_map_of(self.pairs());
        if self.pairs().len() > 0 {
            assert(self@.contains_key(self.pairs()[0].0@));
        }
    }

    /// An empty map.
    pub fn new() -> (r: Self)
        ensures
            r@ == Map::<Seq<char>, V>::empty(),
            r.pairs().len() == 0,
            r.wf(),
    {
        TextMap { entries: Vec::new() }
    }

    /// Number of keys.
    pub fn len(&self) -> (r: usize)
        ensures
            r == self.pairs().len(),
    {
        self.entries.len()
    }

    /// Whether no key is present.
    pub fn is_empty(&self) -> (r: bool)
        requires
            self.wf(),
        ensures
            r == (self@ == Map::<Seq<char>, V>::empty()),
    {
        proof {
            self.lemma_view();
        }
        self.entries.len() == 0
    }

    /// The key of the `i`-th pair.
    pub fn key_at(&self, i: usize) -> (r: &String)
        requires
            i < self.pairs().len(),
        ensures
            *r == self.pairs()[i as int].0,
    {
        &self.entries[i].0
    }

    /// The value of the `i`-th pair.
    pub fn value_at(&self, i: usize) -> (r: &V)
        requires
            i < self.pairs().len(),
        ensures
            *r == self.pairs()[i as int].1,
    {
        &self.entries[i].1
    }

    fn position(&self, k: &str) -> (r: Option<usize>)
        requires
            self.wf(),
        ensures
            match r {
                Some(i) => i < self.pairs().len() && self.pairs()[i as int].0@ == k@,
                None => !self@.contains_key(k@),
            },
    {
        proof {
            self.lemma_view();
        }
        let mut i: usize = 0;
        while i < self.entries.len()
            invariant
                i <= self.entries@.len(),
                self.entries@ == self.pairs(),
                forall|j: int| 0 <= j < i ==> self.pairs()[j].0@ != k@,
            decreases self.entries@.len() - i,
        {
            if text_eq(self.entries[i].0.as_str(), k) {
                return Some(i);
            }
            i = i + 1;
        }
        None
    }

    /// The value under a key.
    pub fn get(&self, k: &str) -> (r: Option<&V>)
        requires
            self.wf(),
        ensures
            match r {
                Some(v) => self@.contains_key(k@) && self@[k@] == *v,
                None => !self@.contains_key(k@),
            },
    {
        proof {
            self.lemma_view();
        }
        match self.position(k) {
            Some(i) => Some(&self.entries[i].1),
            None => None,
        }
    }

    /// Whether a key is present.
    pub fn contains(&self, k: &str) -> (r: bool)
        requires
            self.wf(),
        ensures
            r == self@.contains_key(k@),
    {
        proof {
            self.lemma_view();
        }
        self.position(k).is_some()
    }

    /// Sets the value under a key, adding the key when absent.
    pub fn insert(&mut self, k: String, v: V)
        requires
            old(self).wf(),
        ensures
            final(self).wf(),
            final(self)@ == old(self)@.insert(k@, v),
    {
        proof {
            self.lemma_view();
        }
        let ghost old_s = self.entries@;
        match self.position(k.as_str()) {
            Some(i) => {
                self.entries.set(i, (k, v));
                proof {
                    let s = self.entries@;
                    assert(keys_unique(s)) by {
                        assert forall|a: int, b: int| 0 <= a < s.len() && 0 <= b < s.len() && a != b implies s[a].0@ != s[b].0@ by {
                            if a != i && b != i {
                                assert(s[a] == old_s[a] && s[b] == old_s[b]);
                            } else if a == i {
                                assert(s[b] == old_s[b]);
                            } else {
                                assert(s[a] == old_s[a]);
                            }
                        }
                    }
                    lemma_map_of(s);
                    lemma_map_of(old_s);
                    assert forall|key: Seq<char>| #[trigger] map_of(s).contains_key(key) <==> map_of(old_s).insert(k@, v).contains_key(key) by {
                        if map_of(s).contains_key(key) {
                            let j = choose|j: int| 0 <= j < s.len() && s[j].0@ == key;
                            if j != i {
                                assert(s[j] == old_s[j]);
                            }
                        }
                        if map_of(old_s).contains_key(key) {
                            let j = choose|j: int| 0 <= j < old_s.len() && old_s[j].0@ == key;
                            if j != i {
                                assert(s[j] == old_s[j]);
                            } else {
                                assert(s[j].0@ == key);
                            }
                        }
                    }
                    assert forall|key: Seq<char>| #[trigger] map_of(s).contains_key(key) implies map_of(s)[key] == map_of(old_s).insert(k@, v)[key] by {
                        let j = choose|j: int| 0 <= j < s.len() && s[j].0@ == key;
                        if j != i {
                            assert(s[j] == old_s[j]);
                        }
                    }
                    assert(map_of(s) =~= map_of(old_s).insert(k@, v));
                }
            },
            None => {
                self.entries.push((k, v));
                proof {
                    let s = self.entries@;
                    assert(s.drop_last() =~= old_s);
                    assert(keys_unique(s)) by {
                        assert forall|a: int, b: int| 0 <= a < s.len() && 0 <= b < s.len() && a != b implies s[a].0@ != s[b].0@ by {
                            if a < old_s.len() && b < old_s.len() {
                                assert(s[a] == old_s[a] && s[b] == old_s[b]);
                            } else if a < old_s.len() {
                                assert(s[a] == old_s[a]);
                                assert(map_of(old_s).contains_key(old_s[a].0@));
                            } else {
                                assert(s[b] == old_s[b]);
                                assert(map_of(old_s).contains_key(old_s[b].0@));
                            }
                        }
                    }
                }
            },
        }
    }

    /// Removes a key and its value, if present.
    pub fn remove(&mut self, k: &str)
        requires
            old(self).wf(),
        ensures
            final(self).wf(),
            final(self)@ == old(self)@.remove(k@),
    {
        proof {
            self.lemma_view();
        }
        let ghost old_s = self.entries@;
        match self.position(k) {
            Some(i) => {
                let _ = self.entries.remove(i);
                proof {
                    let s = self.entries@;
                    assert(s =~= old_s.remove(i as int));
                    assert forall|j: int| 0 <= j < s.len() implies #[trigger] s[j] == old_s[if j < i { j } else { j + 1 }] by {}
                    assert(keys_unique(s)) by {
                        assert forall|a: int, b: int| 0 <= a < s.len() && 0 <= b < s.len() && a != b implies s[a].0@ != s[b].0@ by {
                            assert(s[a] == old_s[if a < i { a } else { a + 1 }]);
                            assert(s[b] == old_s[if b < i { b } else { b + 1 }]);
                        }
                    }
                    lemma_map_of(s);
                    lemma_map_of(old_s);
                    assert forall|key: Seq<char>| #[trigger] map_of(s).contains_key(key) <==> map_of(old_s).remove(k@).contains_key(key) by {
                        if map_of(s).contains_key(key) {
                            let j = choose|j: int| 0 <= j < s.len() && s[j].0@ == key;
                            assert(s[j] == old_s[if j < i { j } else { j + 1 }]);
                        }
                        if map_of(old_s).remove(k@).contains_key(key) {
                            let j = choose|j: int| 0 <= j < old_s.len() && old_s[j].0@ == key;
                            assert(j != i);
                            let j2 = if j < i { j } else { j - 1 };
                            assert(s[j2] == old_s[j]);
                        }
                    }
                    assert forall|key: Seq<char>| #[trigger] map_of(s).contains_key(key) implies map_of(s)[key] == map_of(old_s).remove(k@)[key] by {
                        let j = choose|j: int| 0 <= j < s.len() && s[j].0@ == key;
                        assert(s[j] == old_s[if j < i { j } else { j + 1 }]);
                    }
                    assert(map_of(s) =~= map_of(old_s).remove(k@));
                }
            },
            None => {
                proof {
                    assert(old(self)@.remove(k@) =~= old(self)@);
                }
            },
        }
    }

    /// Removes every key.
    pub fn clear(&mut self)
        ensures
            final(self).wf(),
            final(self)@ == Map::<Seq<char>, V>::empty(),
    {
        self.entries = Vec::new();
    }
}

} // verus!
