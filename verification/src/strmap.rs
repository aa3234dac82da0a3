//! An insertion-ordered map from strings to strings.
use vstd::prelude::*;

verus! {

/// No key occurs twice in `s`.
pub open spec fn keys_unique(s: Seq<(Seq<char>, Seq<char>)>) -> bool {
    forall|i: int, j: int| 0 <= i < s.len() && 0 <= j < s.len() && i != j ==> s[i].0 != s[j].0
}

/// Some entry of `s` has key `k`.
pub open spec fn has_key(s: Seq<(Seq<char>, Seq<char>)>, k: Seq<char>) -> bool {
    exists|i: int| 0 <= i < s.len() && s[i].0 == k
}

/// The entries after writing `k -> v`: the entry with key `k` takes the
/// value `v` in place, or a new entry is appended at the end.
pub open spec fn seq_insert(s: Seq<(Seq<char>, Seq<char>)>, k: Seq<char>, v: Seq<char>) -> Seq<
    (Seq<char>, Seq<char>),
> {
    if has_key(s, k) {
        let i = choose|i: int| 0 <= i < s.len() && s[i].0 == k;
        s.update(i, (k, v))
    } else {
        s.push((k, v))
    }
}

/// The map that the entries denote, later entries winning.
pub open spec fn pairs_to_map(s: Seq<(Seq<char>, Seq<char>)>) -> Map<Seq<char>, Seq<char>>
    decreases s.len(),
{
    if s.len() == 0 {
        Map::empty()
    } else {
        pairs_to_map(s.drop_last()).insert(s.last().0, s.last().1)
    }
}

/// An entry of `s` with key `k` gives the value that the map holds for `k`;
/// without such an entry the map has no `k`.
pub proof fn lemma_pairs_to_map_lookup(s: Seq<(Seq<char>, Seq<char>)>, k: Seq<char>)
    requires
        keys_unique(s),
    ensures
        pairs_to_map(s).dom().contains(k) == has_key(s, k),
        forall|i: int| 0 <= i < s.len() && s[i].0 == k ==> pairs_to_map(s)[k] == s[i].1,
    decreases s.len(),
{
    if s.len() > 0 {
        let t = s.drop_last();
        assert(keys_unique(t));
        lemma_pairs_to_map_lookup(t, k);
        if has_key(t, k) {
            let i = choose|i: int| 0 <= i < t.len() && t[i].0 == k;
            assert(s[i].0 == k);
        }
        if has_key(s, k) && s.last().0 != k {
            let i = choose|i: int| 0 <= i < s.len() && s[i].0 == k;
            assert(t[i].0 == k);
        }
    }
}

/// Writing `k -> v` into the entries writes `k -> v` into the map they
/// denote, and keeps the keys unique.
pub proof fn lemma_seq_insert_map(s: Seq<(Seq<char>, Seq<char>)>, k: Seq<char>, v: Seq<char>)
    requires
        keys_unique(s),
    ensures
        keys_unique(seq_insert(s, k, v)),
        pairs_to_map(seq_insert(s, k, v)) == pairs_to_map(s).insert(k, v),
{
    if has_key(s, k) {
        let i = choose|i: int| 0 <= i < s.len() && s[i].0 == k;
        lemma_update_map(s, i, k, v);
    } else {
        assert(seq_insert(s, k, v).drop_last() =~= s);
    }
}

proof fn lemma_update_map(s: Seq<(Seq<char>, Seq<char>)>, i: int, k: Seq<char>, v: Seq<char>)
    requires
        keys_unique(s),
        0 <= i < s.len(),
        s[i].0 == k,
    ensures
        keys_unique(s.update(i, (k, v))),
        pairs_to_map(s.update(i, (k, v))) == pairs_to_map(s).insert(k, v),
    decreases s.len(),
{
    let u = s.update(i, (k, v));
    let n = s.len();
    assert(keys_unique(u)) by {
        assert forall|a: int, b: int| 0 <= a < u.len() && 0 <= b < u.len() && a != b implies u[a].0
            != u[b].0 by {
            assert(u[a].0 == s[a].0);
            assert(u[b].0 == s[b].0);
        }
    }
    if i == n - 1 {
        assert(u.drop_last() =~= s.drop_last());
        assert(pairs_to_map(u) =~= pairs_to_map(s).insert(k, v));
    } else {
        let t = s.drop_last();
        assert(keys_unique(t));
        lemma_update_map(t, i, k, v);
        assert(u.drop_last() =~= t.update(i, (k, v)));
        assert(s.last().0 != k);
        assert(pairs_to_map(u) =~= pairs_to_map(s).insert(k, v));
    }
}

/// An insertion-ordered map from strings to strings: each key occurs once,
/// and the entries keep the order in which their keys were first written.
pub struct StrMap {
    entries: Vec<(String, String)>,
}

impl View for StrMap {
    type V = Seq<(Seq<char>, Seq<char>)>;

    closed spec fn view(&self) -> Seq<(Seq<char>, Seq<char>)> {
        self.entries@.map_values(|e: (String, String)| (e.0@, e.1@))
    }
}

impl StrMap {
    #[verifier::type_invariant]
    spec fn inv(self) -> bool {
        keys_unique(self@)
    }

    /// The map that the entries denote.
    pub open spec fn as_map(&self) -> Map<Seq<char>, Seq<char>> {
        pairs_to_map(self@)
    }

    /// An empty map.
    pub fn new() -> (m: StrMap)
        ensures
            m@ == Seq::<(Seq<char>, Seq<char>)>::empty(),
    {
        let m = StrMap { entries: Vec::new() };
        assert(m@ =~= Seq::<(Seq<char>, Seq<char>)>::empty());
        m
    }

    /// The number of entries.
    pub fn len(&self) -> (n: usize)
        ensures
            n == self@.len(),
            keys_unique(self@),
    {
        proof {
            use_type_invariant(self);
        }
        self.entries.len()
    }

    /// The key and value of the entry at position `i`.
    pub fn entry(&self, i: usize) -> (e: (&String, &String))
        requires
            i < self@.len(),
        ensures
            e.0@ == self@[i as int].0,
            e.1@ == self@[i as int].1,
    {
        let e = &self.entries[i];
        (&e.0, &e.1)
    }

    /// The position of the entry with key `key`, if there is one.
    pub fn find(&self, key: &String) -> (r: Option<usize>)
        ensures
            r is None ==> !has_key(self@, key@),
            r matches Some(i) ==> i < self@.len() && self@[i as int].0 == key@,
    {
        let mut i: usize = 0;
        while i < self.entries.len()
            invariant
                i <= self@.len(),
                self@.len() == self.entries@.len(),
                forall|j: int| 0 <= j < i ==> self@[j].0 != key@,
            decreases self.entries.len() - i,
        {
            if self.entries[i].0 == *key {
                return Some(i);
            }
            i = i + 1;
        }
        None
    }

    /// The value stored for `key`.
    pub fn get(&self, key: &String) -> (r: Option<&String>)
        ensures
            r is None <==> !self.as_map().dom().contains(key@),
            r matches Some(v) ==> v@ == self.as_map()[key@],
    {
        proof {
            use_type_invariant(self);
            lemma_pairs_to_map_lookup(self@, key@);
        }
        match self.find(key) {
            Some(i) => Some(&self.entries[i].1),
            None => None,
        }
    }

    /// Writes `key -> value`: an existing entry for `key` takes the new
    /// value in place; otherwise the entry is appended.
    pub fn insert(&mut self, key: String, value: String)
        ensures
            final(self)@ == seq_insert(old(self)@, key@, value@),
            final(self).as_map() == old(self).as_map().insert(key@, value@),
    {
        proof {
            use_type_invariant(&*self);
            lemma_seq_insert_map(self@, key@, value@);
        }
        let ghost k = key@;
        let ghost vv = value@;
        let ghost before = self@;
        match self.find(&key) {
            Some(i) => {
                let mut entries: Vec<(String, String)> = Vec::new();
                std::mem::swap(&mut entries, &mut self.entries);
                entries.set(i, (key, value));
                proof {
                    assert(has_key(before, k));
                    let j = choose|j: int| 0 <= j < before.len() && before[j].0 == k;
                    assert(j == i as int);
                    assert(entries@.map_values(|e: (String, String)| (e.0@, e.1@)) =~= before.update(
                        i as int,
                        (k, vv),
                    ));
                }
                self.entries = entries;
            },
            None => {
                let mut entries: Vec<(String, String)> = Vec::new();
                std::mem::swap(&mut entries, &mut self.entries);
                entries.push((key, value));
                assert(entries@.map_values(|e: (String, String)| (e.0@, e.1@)) =~= before.push(
                    (k, vv),
                ));
                self.entries = entries;
            },
        }
    }
}

} // verus!
