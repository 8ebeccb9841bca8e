//! Small maps the editor keeps: settings by name and marked positions by
//! character.
use vstd::prelude::*;
use crate::text::{chars_of, chars_eq};

verus! {

/// The value of the first entry whose key is `k`.
pub open spec fn first_value<K, V>(s: Seq<(K, V)>, k: K) -> Option<V>
    decreases s.len(),
{
    if s.len() == 0 {
        None
    } else if s[0].0 == k {
        Some(s[0].1)
    } else {
        first_value(s.drop_first(), k)
    }
}

/// The map that first-match lookup in `s` gives.
pub open spec fn as_map<K, V>(s: Seq<(K, V)>) -> Map<K, V> {
    Map::new(|k: K| first_value(s, k) is Some, |k: K| first_value(s, k).unwrap())
}

proof fn lemma_first_value_update<K, V>(s: Seq<(K, V)>, i: int, k: K, v: V, k2: K)
    requires
        0 <= i < s.len(),
        s[i].0 == k,
        forall|j: int| 0 <= j < i ==> s[j].0 != k,
    ensures
        first_value(s.update(i, (k, v)), k2) == (if k2 == k {
            Some(v)
        } else {
            first_value(s, k2)
        }),
    decreases s.len(),
{
    let u = s.update(i, (k, v));
    if i > 0 {
        assert(u.drop_first() =~= s.drop_first().update(i - 1, (k, v)));
        assert(u[0] == s[0]);
        lemma_first_value_update(s.drop_first(), i - 1, k, v, k2);
    } else {
        assert(u.drop_first() =~= s.drop_first());
        assert(u[0] == (k, v));
    }
}

proof fn lemma_first_value_push<K, V>(s: Seq<(K, V)>, k: K, v: V, k2: K)
    requires
        first_value(s, k) is None,
    ensures
        first_value(s.push((k, v)), k2) == (if k2 == k {
            Some(v)
        } else {
            first_value(s, k2)
        }),
    decreases s.len(),
{
    let p = s.push((k, v));
    if s.len() > 0 {
        assert(p.drop_first() =~= s.drop_first().push((k, v)));
        assert(p[0] == s[0]);
        assert(s[0].0 != k);
        assert(first_value(s.drop_first(), k) is None);
        lemma_first_value_push(s.drop_first(), k, v, k2);
        assert(first_value(p, k2) == (if p[0].0 == k2 { Some(p[0].1) } else { first_value(p.drop_first(), k2) }));
    } else {
        assert(p.drop_first() =~= Seq::<(K, V)>::empty());
        assert(p[0] == (k, v));
        assert(first_value(p.drop_first(), k2) is None);
        assert(first_value(p, k2) == (if p[0].0 == k2 { Some(p[0].1) } else { first_value(p.drop_first(), k2) }));
    }
}

proof fn lemma_first_value_index<K, V>(s: Seq<(K, V)>, i: int, k: K)
    requires
        0 <= i <= s.len(),
        forall|j: int| 0 <= j < i ==> s[j].0 != k,
    ensures
        first_value(s, k) == first_value(s.skip(i), k),
    decreases i,
{
    if i > 0 {
        assert(s.skip(i) =~= s.drop_first().skip(i - 1));
        assert(s[0].0 != k);
        lemma_first_value_index(s.drop_first(), i - 1, k);
    } else {
        assert(s.skip(0) =~= s);
    }
}

/// Settings by name (`:set key=value`).
pub struct Vars {
    entries: Vec<(String, String)>,
}

/// The entries of a settings list, keys and values as text.
pub open spec fn entry_views(s: Seq<(String, String)>) -> Seq<(Seq<char>, Seq<char>)> {
    s.map_values(|e: (String, String)| (e.0@, e.1@))
}

impl View for Vars {
    type V = Map<Seq<char>, Seq<char>>;

    closed spec fn view(&self) -> Map<Seq<char>, Seq<char>> {
        as_map(entry_views(self.entries@))
    }
}

impl Vars {
    /// No settings.
    pub fn new() -> (r: Vars)
        ensures
            r@ == Map::<Seq<char>, Seq<char>>::empty(),
    {
        let r = Vars { entries: Vec::new() };
        assert(r@ =~= Map::<Seq<char>, Seq<char>>::empty());
        r
    }

    fn find(&self, key: &Vec<char>) -> (r: Option<usize>)
        ensures
            match r {
                Some(i) => i < self.entries@.len() && entry_views(self.entries@)[i as int].0 == key@ && forall|j: int|
                    0 <= j < i ==> entry_views(self.entries@)[j].0 != key@,
                None => first_value(entry_views(self.entries@), key@) is None,
            },
    {
        let ghost s = entry_views(self.entries@);
        let mut i: usize = 0;
        while i < self.entries.len()
            invariant
                i <= self.entries@.len(),
                s == entry_views(self.entries@),
                forall|j: int| 0 <= j < i ==> s[j].0 != key@,
            decreases self.entries@.len() - i,
        {
            let k = chars_of(self.entries[i].0.as_str());
            if chars_eq(&k, key) {
                return Some(i);
            }
            i = i + 1;
        }
        proof {
            lemma_first_value_index(s, i as int, key@);
            assert(s.skip(i as int) =~= Seq::<(Seq<char>, Seq<char>)>::empty());
        }
        None
    }

    /// The value set for `key`.
    pub fn get(&self, key: &str) -> (r: Option<&String>)
        ensures
            match r {
                Some(v) => self@.contains_key(key@) && self@[key@] == v@,
                None => !self@.contains_key(key@),
            },
    {
        let k = chars_of(key);
        match self.find(&k) {
            Some(i) => {
                proof {
                    let s = entry_views(self.entries@);
                    lemma_first_value_index(s, i as int, key@);
                    assert(s.skip(i as int)[0] == s[i as int]);
                }
                Some(&self.entries[i].1)
            },
            None => None,
        }
    }

    /// Sets `key` to `value`.
    pub fn insert(&mut self, key: String, value: String)
        ensures
            final(self)@ == old(self)@.insert(key@, value@),
    {
        let k = chars_of(key.as_str());
        let ghost s = entry_views(self.entries@);
        match self.find(&k) {
            Some(i) => {
                self.entries.set(i, (key, value));
                proof {
                    assert(entry_views(self.entries@) =~= s.update(i as int, (k@, value@)));
                    assert forall|k2: Seq<char>| #[trigger] first_value(entry_views(self.entries@), k2) == (if k2
                        == k@ {
                        Some(value@)
                    } else {
                        first_value(s, k2)
                    }) by {
                        lemma_first_value_update(s, i as int, k@, value@, k2);
                    }
                }
            },
            None => {
                self.entries.push((key, value));
                proof {
                    assert(entry_views(self.entries@) =~= s.push((k@, value@)));
                    assert forall|k2: Seq<char>| #[trigger] first_value(entry_views(self.entries@), k2) == (if k2
                        == k@ {
                        Some(value@)
                    } else {
                        first_value(s, k2)
                    }) by {
                        lemma_first_value_push(s, k@, value@, k2);
                    }
                }
            },
        }
        assert(self@ =~= old(self)@.insert(key@, value@));
    }
}

/// Marked cell positions by character (`m` then a character).
pub struct Marks {
    entries: Vec<(char, (usize, usize))>,
}

impl View for Marks {
    type V = Map<char, (usize, usize)>;

    closed spec fn view(&self) -> Map<char, (usize, usize)> {
        as_map(self.entries@)
    }
}

impl Marks {
    /// No marks.
    pub fn new() -> (r: Marks)
        ensures
            r@ == Map::<char, (usize, usize)>::empty(),
    {
        let r = Marks { entries: Vec::new() };
        assert(r@ =~= Map::<char, (usize, usize)>::empty());
        r
    }

    fn find(&self, key: char) -> (r: Option<usize>)
        ensures
            match r {
                Some(i) => i < self.entries@.len() && self.entries@[i as int].0 == key && forall|j: int|
                    0 <= j < i ==> self.entries@[j].0 != key,
                None => first_value(self.entries@, key) is None,
            },
    {
        let mut i: usize = 0;
        while i < self.entries.len()
            invariant
                i <= self.entries@.len(),
                forall|j: int| 0 <= j < i ==> self.entries@[j].0 != key,
            decreases self.entries@.len() - i,
        {
            if self.entries[i].0 == key {
                return Some(i);
            }
            i = i + 1;
        }
        proof {
            lemma_first_value_index(self.entries@, i as int, key);
            assert(self.entries@.skip(i as int) =~= Seq::<(char, (usize, usize))>::empty());
        }
        None
    }

    /// The position marked with `key`.
    pub fn get(&self, key: &char) -> (r: Option<&(usize, usize)>)
        ensures
            match r {
                Some(p) => self@.contains_key(*key) && self@[*key] == *p,
                None => !self@.contains_key(*key),
            },
    {
        match self.find(*key) {
            Some(i) => {
                proof {
                    lemma_first_value_index(self.entries@, i as int, *key);
                    assert(self.entries@.skip(i as int)[0] == self.entries@[i as int]);
                }
                Some(&self.entries[i].1)
            },
            None => None,
        }
    }

    /// Marks `pos` with `key`.
    pub fn insert(&mut self, key: char, pos: (usize, usize))
        ensures
            final(self)@ == old(self)@.insert(key, pos),
    {
        let ghost s = self.entries@;
        match self.find(key) {
            Some(i) => {
                self.entries.set(i, (key, pos));
                proof {
                    assert forall|k2: char| #[trigger] first_value(self.entries@, k2) == (if k2 == key {
                        Some(pos)
                    } else {
                        first_value(s, k2)
                    }) by {
                        lemma_first_value_update(s, i as int, key, pos, k2);
                    }
                }
            },
            None => {
                self.entries.push((key, pos));
                proof {
                    assert forall|k2: char| #[trigger] first_value(self.entries@, k2) == (if k2 == key {
                        Some(pos)
                    } else {
                        first_value(s, k2)
                    }) by {
                        lemma_first_value_push(s, key, pos, k2);
                    }
                }
            },
        }
        assert(self@ =~= old(self)@.insert(key, pos));
    }
}

} // verus!
