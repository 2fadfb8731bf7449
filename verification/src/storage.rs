//! The in-memory storage backend: named byte strings.
use vstd::prelude::*;

verus! {

/// Names are unique.
pub open spec fn unique_names(s: Seq<(Seq<char>, Seq<u8>)>) -> bool {
    forall|i: int, j: int| 0 <= i < s.len() && 0 <= j < s.len() && i != j ==> s[i].0 != s[j].0
}

/// Where a name is stored, or -1.
pub open spec fn name_index(s: Seq<(Seq<char>, Seq<u8>)>, k: Seq<char>) -> int {
    if exists|i: int| 0 <= i < s.len() && s[i].0 == k {
        choose|i: int| 0 <= i < s.len() && s[i].0 == k
    } else {
        -1
    }
}

/// The stored objects as a map from name to contents.
pub open spec fn objects_of(s: Seq<(Seq<char>, Seq<u8>)>) -> Map<Seq<char>, Seq<u8>> {
    Map::new(|k: Seq<char>| name_index(s, k) >= 0, |k: Seq<char>| s[name_index(s, k)].1)
}

proof fn lemma_name_index(s: Seq<(Seq<char>, Seq<u8>)>, i: int)
    requires
        unique_names(s),
        0 <= i < s.len(),
    ensures
        name_index(s, s[i].0) == i,
{
    let k = s[i].0;
    assert(exists|j: int| 0 <= j < s.len() && s[j].0 == k);
    let j = name_index(s, k);
    assert(0 <= j < s.len() && s[j].0 == k);
}

proof fn lemma_name_index_found(s: Seq<(Seq<char>, Seq<u8>)>, k: Seq<char>)
    requires
        name_index(s, k) >= 0,
    ensures
        0 <= name_index(s, k) < s.len(),
        s[name_index(s, k)].0 == k,
{
}

/// Named byte strings held in memory.
pub struct MemoryStore {
    entries: Vec<(String, Vec<u8>)>,
}

impl View for MemoryStore {
    type V = Map<Seq<char>, Seq<u8>>;

    /// The stored objects.
    closed spec fn view(&self) -> Map<Seq<char>, Seq<u8>> {
        objects_of(self.pairs())
    }
}

impl MemoryStore {
    pub closed spec fn pairs(&self) -> Seq<(Seq<char>, Seq<u8>)> {
        self.entries@.map_values(|p: (String, Vec<u8>)| (p.0@, p.1@))
    }

    pub closed spec fn wf(&self) -> bool {
        unique_names(self.pairs())
    }

    /// An empty store.
    pub fn new() -> (r: Self)
        ensures
            r.wf(),
            r.view() == Map::<Seq<char>, Seq<u8>>::empty(),
    {
        let r = MemoryStore { entries: Vec::new() };
        assert(r.pairs() =~= Seq::<(Seq<char>, Seq<u8>)>::empty());
        assert(r.view() =~= Map::<Seq<char>, Seq<u8>>::empty());
        r
    }

    fn position(&self, name: &String) -> (r: Option<usize>)
        requires
            self.wf(),
        ensures
            match r {
                Some(i) => i < self.pairs().len() && name_index(self.pairs(), name@) == i,
                None => name_index(self.pairs(), name@) < 0,
            },
    {
        let ghost s = self.pairs();
        let mut i: usize = 0;
        while i < self.entries.len()
            invariant
                s == self.pairs(),
                self.wf(),
                i <= self.entries.len(),
                forall|l: int| 0 <= l < i ==> s[l].0 != name@,
            decreases self.entries.len() - i,
        {
            if self.entries[i].0 == *name {
                proof {
                    lemma_name_index(s, i as int);
                }
                return Some(i);
            }
            i = i + 1;
        }
        None
    }

    /// The contents stored under `name`, if any.
    pub fn read(&self, name: &str) -> (r: Option<Vec<u8>>)
        requires
            self.wf(),
        ensures
            match r {
                Some(d) => self.view().contains_key(name@) && d@ == self.view()[name@],
                None => !self.view().contains_key(name@),
            },
    {
        let k = String::from_str(name);
        match self.position(&k) {
            Some(i) => {
                let src = &self.entries[i].1;
                let mut d: Vec<u8> = Vec::new();
                let mut j: usize = 0;
                while j < src.len()
                    invariant
                        j <= src@.len(),
                        d@ == src@.take(j as int),
                    decreases src.len() - j,
                {
                    d.push(src[j]);
                    assert(src@.take(j + 1) =~= src@.take(j as int).push(src@[j as int]));
                    j = j + 1;
                }
                assert(src@.take(j as int) =~= src@);
                Some(d)
            },
            None => None,
        }
    }

    /// Stores `data` under `name`, replacing what was stored there.
    pub fn persist(&mut self, name: &str, data: Vec<u8>)
        requires
            old(self).wf(),
        ensures
            final(self).wf(),
            final(self).view() == old(self).view().insert(name@, data@),
    {
        let ghost s = self.pairs();
        let k = String::from_str(name);
        match self.position(&k) {
            Some(i) => {
                self.entries.set(i, (k, data));
                proof {
                    let t = self.pairs();
                    assert(t =~= s.update(i as int, (name@, data@)));
                    assert forall|a: int, b: int| 0 <= a < t.len() && 0 <= b < t.len() && a != b implies t[a].0 != t[b].0 by {
                        assert(t[a].0 == s[a].0 && t[b].0 == s[b].0);
                    }
                    assert forall|x: Seq<char>| #[trigger] objects_of(t).contains_key(x) == objects_of(s).insert(name@, data@).contains_key(x) by {
                        if name_index(t, x) >= 0 {
                            lemma_name_index_found(t, x);
                            let j = name_index(t, x);
                            assert(s[j].0 == t[j].0);
                            lemma_name_index(s, j);
                        }
                        if name_index(s, x) >= 0 {
                            lemma_name_index_found(s, x);
                            let j = name_index(s, x);
                            assert(s[j].0 == t[j].0);
                            lemma_name_index(t, j);
                        }
                    }
                    assert forall|x: Seq<char>| objects_of(t).contains_key(x) implies objects_of(t)[x] == objects_of(s).insert(name@, data@)[x] by {
                        lemma_name_index_found(t, x);
                        let j = name_index(t, x);
                        if j != i {
                            assert(t[j] == s[j]);
                            lemma_name_index(s, j);
                        }
                    }
                    assert(objects_of(t) =~= objects_of(s).insert(name@, data@));
                }
            },
            None => {
                self.entries.push((k, data));
                proof {
                    let t = self.pairs();
                    let n = s.len() as int;
                    assert(t =~= s.push((name@, data@)));
                    assert forall|a: int, b: int| 0 <= a < t.len() && 0 <= b < t.len() && a != b implies t[a].0 != t[b].0 by {
                        if a < n {
                            assert(t[a] == s[a]);
                        }
                        if b < n {
                            assert(t[b] == s[b]);
                        }
                    }
                    assert forall|x: Seq<char>| #[trigger] objects_of(t).contains_key(x) == objects_of(s).insert(name@, data@).contains_key(x) by {
                        if name_index(t, x) >= 0 {
                            lemma_name_index_found(t, x);
                            let j = name_index(t, x);
                            if j < n {
                                assert(t[j] == s[j]);
                                lemma_name_index(s, j);
                            }
                        }
                        if name_index(s, x) >= 0 {
                            lemma_name_index_found(s, x);
                            let j = name_index(s, x);
                            assert(t[j] == s[j]);
                            lemma_name_index(t, j);
                        }
                        if x == name@ {
                            lemma_name_index(t, n);
                        }
                    }
                    assert forall|x: Seq<char>| objects_of(t).contains_key(x) implies objects_of(t)[x] == objects_of(s).insert(name@, data@)[x] by {
                        lemma_name_index_found(t, x);
                        let j = name_index(t, x);
                        if j < n {
                            assert(t[j] == s[j]);
                            lemma_name_index(s, j);
                        }
                    }
                    assert(objects_of(t) =~= objects_of(s).insert(name@, data@));
                }
            },
        }
    }

    /// Removes what is stored under `name`; nothing else changes.
    pub fn remove(&mut self, name: &str)
        requires
            old(self).wf(),
        ensures
            final(self).wf(),
            final(self).view() == old(self).view().remove(name@),
    {
        let ghost s = self.pairs();
        let k = String::from_str(name);
        match self.position(&k) {
            Some(p) => {
                self.entries.remove(p);
                proof {
                    let t = self.pairs();
                    assert(t =~= s.remove(p as int));
                    assert forall|a: int, b: int| 0 <= a < t.len() && 0 <= b < t.len() && a != b implies t[a].0 != t[b].0 by {
                        let x = if a < p { a } else { a + 1 };
                        let y = if b < p { b } else { b + 1 };
                        assert(t[a] == s[x] && t[b] == s[y]);
                    }
                    assert forall|x: Seq<char>| #[trigger] objects_of(t).contains_key(x) == objects_of(s).remove(name@).contains_key(x) by {
                        if name_index(t, x) >= 0 {
                            lemma_name_index_found(t, x);
                            let j = name_index(t, x);
                            let a = if j < p { j } else { j + 1 };
                            assert(t[j] == s[a]);
                            lemma_name_index(s, a);
                        }
                        if name_index(s, x) >= 0 && x != name@ {
                            lemma_name_index_found(s, x);
                            let a = name_index(s, x);
                            let j = if a < p { a } else { a - 1 };
                            assert(t[j] == s[a]);
                            lemma_name_index(t, j);
                        }
                    }
                    assert forall|x: Seq<char>| objects_of(t).contains_key(x) implies objects_of(t)[x] == objects_of(s).remove(name@)[x] by {
                        lemma_name_index_found(t, x);
                        let j = name_index(t, x);
                        let a = if j < p { j } else { j + 1 };
                        assert(t[j] == s[a]);
                        lemma_name_index(s, a);
                    }
                    assert(objects_of(t) =~= objects_of(s).remove(name@));
                }
            },
            None => {
                assert(objects_of(s).remove(name@) =~= objects_of(s));
            },
        }
    }
}

/// What is read back is what was last written under the name, and a removed
/// name reads as nothing; other names are not affected by either.
pub proof fn law_memory_read_back(m: Map<Seq<char>, Seq<u8>>, name: Seq<char>, other: Seq<char>, data: Seq<u8>)
    requires
        other != name,
    ensures
        m.insert(name, data).contains_key(name),
        m.insert(name, data)[name] == data,
        !m.remove(name).contains_key(name),
        m.insert(name, data).contains_key(other) == m.contains_key(other),
        m.contains_key(other) ==> m.insert(name, data)[other] == m[other],
        m.remove(name).contains_key(other) == m.contains_key(other),
        m.contains_key(other) ==> m.remove(name)[other] == m[other],
{
}

} // verus!
