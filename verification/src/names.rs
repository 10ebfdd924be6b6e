//! Name-keyed tables kept as ordered lists of entries.
use vstd::prelude::*;

verus! {

/// A table from names to values, stored as entries in insertion order.
/// A lookup finds the first entry whose name matches.
pub struct NameMap<V> {
    pub entries: Vec<(String, V)>,
}

/// Index of the first entry named `k`, or -1 when there is none.
pub open spec fn key_index<V>(s: Seq<(String, V)>, k: Seq<char>) -> int
    decreases s.len(),
{
    if s.len() == 0 {
        -1
    } else {
        let r = key_index(s.drop_last(), k);
        if r >= 0 {
            r
        } else if s.last().0@ == k {
            s.len() - 1
        } else {
            -1
        }
    }
}

/// The value of the first entry named `k`.
pub open spec fn lookup<V>(s: Seq<(String, V)>, k: Seq<char>) -> Option<V> {
    if key_index(s, k) >= 0 {
        Some(s[key_index(s, k)].1)
    } else {
        None
    }
}

/// The map that a list of entries denotes (first entry of each name wins).
pub open spec fn map_of<V>(s: Seq<(String, V)>) -> Map<Seq<char>, V> {
    Map::new(|k: Seq<char>| key_index(s, k) >= 0, |k: Seq<char>| s[key_index(s, k)].1)
}

/// No two entries carry the same name.
pub open spec fn keys_distinct<V>(s: Seq<(String, V)>) -> bool {
    forall|i: int, j: int| 0 <= i < j < s.len() ==> s[i].0@ != s[j].0@
}

pub broadcast proof fn lemma_key_index_props<V>(s: Seq<(String, V)>, k: Seq<char>)
    ensures
        -1 <= #[trigger] key_index(s, k) < s.len(),
        key_index(s, k) >= 0 ==> s[key_index(s, k)].0@ == k,
        key_index(s, k) >= 0 ==> forall|j: int| 0 <= j < key_index(s, k) ==> s[j].0@ != k,
        key_index(s, k) == -1 <==> forall|j: int| 0 <= j < s.len() ==> s[j].0@ != k,
    decreases s.len(),
{
    if s.len() > 0 {
        let t = s.drop_last();
        lemma_key_index_props(t, k);
        assert(forall|j: int| 0 <= j < t.len() ==> t[j] == s[j]);
    }
}

pub proof fn lemma_key_index_distinct<V>(s: Seq<(String, V)>, j: int)
    requires
        keys_distinct(s),
        0 <= j < s.len(),
    ensures
        key_index(s, s[j].0@) == j,
{
    lemma_key_index_props(s, s[j].0@);
}

pub proof fn lemma_key_index_same_names<V>(s: Seq<(String, V)>, t: Seq<(String, V)>, k: Seq<char>)
    requires
        s.len() == t.len(),
        forall|j: int| 0 <= j < s.len() ==> s[j].0@ == t[j].0@,
    ensures
        key_index(s, k) == key_index(t, k),
    decreases s.len(),
{
    if s.len() > 0 {
        lemma_key_index_same_names(s.drop_last(), t.drop_last(), k);
    }
}

pub proof fn lemma_key_index_push<V>(s: Seq<(String, V)>, e: (String, V), k: Seq<char>)
    ensures
        key_index(s.push(e), k) == (if key_index(s, k) >= 0 {
            key_index(s, k)
        } else if e.0@ == k {
            s.len() as int
        } else {
            -1
        }),
{
    assert(s.push(e).drop_last() =~= s);
}

pub proof fn lemma_map_of_push<V>(s: Seq<(String, V)>, e: (String, V))
    ensures
        map_of(s.push(e)) == (if map_of(s).contains_key(e.0@) {
            map_of(s)
        } else {
            map_of(s).insert(e.0@, e.1)
        }),
{
    broadcast use lemma_key_index_props;

    assert(forall|j: int| 0 <= j < s.len() ==> s.push(e)[j] == s[j]);
    assert forall|k: Seq<char>| #[trigger] key_index(s.push(e), k) == (if key_index(s, k) >= 0 {
        key_index(s, k)
    } else if e.0@ == k {
        s.len() as int
    } else {
        -1
    }) by {
        lemma_key_index_push(s, e, k);
    }
    if map_of(s).contains_key(e.0@) {
        assert(map_of(s.push(e)) =~= map_of(s));
    } else {
        assert(map_of(s.push(e)) =~= map_of(s).insert(e.0@, e.1));
    }
}

pub proof fn lemma_map_of_empty<V>(s: Seq<(String, V)>)
    requires
        s.len() == 0,
    ensures
        map_of(s) == Map::<Seq<char>, V>::empty(),
{
    assert(map_of(s) =~= Map::<Seq<char>, V>::empty());
}

/// Compares two strings by their characters.
pub fn str_eq(a: &str, b: &str) -> (r: bool)
    ensures
        r == (a@ == b@),
{
    let x: String = a.to_owned();
    let y: String = b.to_owned();
    x == y
}

impl<V> View for NameMap<V> {
    type V = Map<Seq<char>, V>;

    open spec fn view(&self) -> Map<Seq<char>, V> {
        map_of(self.entries@)
    }
}

impl<V> NameMap<V> {
    pub open spec fn wf(&self) -> bool {
        keys_distinct(self.entries@)
    }

    pub fn new() -> (m: Self)
        ensures
            m@ == Map::<Seq<char>, V>::empty(),
            m.wf(),
            m.entries@.len() == 0,
    {
        let m = NameMap { entries: Vec::new() };
        proof {
            lemma_map_of_empty(m.entries@);
        }
        m
    }

    /// Index of the first entry named `k`.
    pub fn find(&self, k: &str) -> (r: Option<usize>)
        ensures
            match r {
                Some(i) => i == key_index(self.entries@, k@) && i < self.entries@.len(),
                None => key_index(self.entries@, k@) == -1,
            },
    {
        let q: String = k.to_owned();
        let mut i: usize = 0;
        while i < self.entries.len()
            invariant
                0 <= i <= self.entries@.len(),
                q@ == k@,
                forall|j: int| 0 <= j < i ==> self.entries@[j].0@ != k@,
            decreases self.entries@.len() - i,
        {
            if self.entries[i].0 == q {
                proof {
                    lemma_key_index_props(self.entries@, k@);
                }
                return Some(i);
            }
            i = i + 1;
        }
        proof {
            lemma_key_index_props(self.entries@, k@);
        }
        None
    }

    pub fn contains_key(&self, k: &str) -> (r: bool)
        ensures
            r == self@.contains_key(k@),
    {
        self.find(k).is_some()
    }

    pub fn get(&self, k: &str) -> (r: Option<&V>)
        ensures
            match r {
                Some(v) => self@.contains_key(k@) && *v == self@[k@],
                None => !self@.contains_key(k@),
            },
    {
        match self.find(k) {
            Some(i) => Some(&self.entries[i].1),
            None => None,
        }
    }

    /// Sets the value under `k`, adding an entry at the end when there is none.
    pub fn insert(&mut self, k: String, v: V)
        ensures
            final(self)@ == old(self)@.insert(k@, v),
            old(self).wf() ==> final(self).wf(),
    {
        broadcast use lemma_key_index_props;

        match self.find(k.as_str()) {
            Some(i) => {
                let ghost s = self.entries@;
                self.entries[i] = (k, v);
                proof {
                    let t = self.entries@;
                    assert(t =~= s.update(i as int, (k, v)));
                    assert forall|q: Seq<char>| #[trigger] key_index(t, q) == key_index(s, q) by {
                        lemma_key_index_same_names(s, t, q);
                    }
                    assert(self@ =~= map_of(s).insert(k@, v));
                }
            },
            None => {
                let ghost s = self.entries@;
                self.entries.push((k, v));
                proof {
                    lemma_map_of_push(s, (k, v));
                }
            },
        }
    }

    /// Removes the entry named `k` and hands back its value.
    pub fn remove(&mut self, k: &str) -> (r: Option<V>)
        requires
            old(self).wf(),
        ensures
            final(self).wf(),
            final(self)@ == old(self)@.remove(k@),
            r == old(self)@.get(k@),
    {
        broadcast use lemma_key_index_props;

        match self.find(k) {
            Some(i) => {
                let ghost s = self.entries@;
                let (_, val) = self.entries.remove(i);
                proof {
                    let t = self.entries@;
                    assert(t =~= s.remove(i as int));
                    assert forall|q: Seq<char>| #[trigger]
                        map_of(t).contains_key(q) == map_of(s).remove(k@).contains_key(q) && (
                        map_of(t).contains_key(q) ==> map_of(t)[q] == map_of(s)[q]) by {
                        if key_index(t, q) >= 0 {
                            let j = key_index(t, q);
                            let j0 = if j < i { j } else { j + 1 };
                            assert(0 <= j0 < s.len());
                            assert(s[j0] == t[j]);
                            lemma_key_index_distinct(s, j0);
                        }
                        if key_index(s, q) >= 0 && q != k@ {
                            let j0 = key_index(s, q);
                            assert(j0 != i);
                            let j = if j0 < i { j0 } else { j0 - 1 };
                            assert(t[j] == s[j0]);
                            lemma_key_index_props(t, q);
                        }
                    }
                    assert(self@ =~= map_of(s).remove(k@));
                }
                Some(val)
            },
            None => {
                proof {
                    assert(self@ =~= old(self)@.remove(k@));
                }
                None
            },
        }
    }

    pub fn clear(&mut self)
        ensures
            final(self)@ == Map::<Seq<char>, V>::empty(),
            final(self).wf(),
            final(self).entries@.len() == 0,
    {
        self.entries.clear();
        proof {
            lemma_map_of_empty(self.entries@);
        }
    }
}

} // verus!
