//! The ordered maps that a file is read into: section name to fields, field
//! name to value. An entry keeps the place at which its key was first stored.

use vstd::prelude::*;

verus! {

/// Position of the entry with key `key`, or -1 if there is none. Where a key
/// occurs more than once, it is the first position.
pub open spec fn key_index<V>(m: Seq<(Seq<char>, V)>, key: Seq<char>) -> int
    decreases m.len(),
{
    if m.len() == 0 {
        -1
    } else {
        let r = key_index(m.drop_last(), key);
        if r >= 0 {
            r
        } else if m.last().0 == key {
            m.len() - 1
        } else {
            -1
        }
    }
}

/// The value stored under `key`.
pub open spec fn lookup<V>(m: Seq<(Seq<char>, V)>, key: Seq<char>) -> Option<V> {
    let i = key_index(m, key);
    if i >= 0 {
        Some(m[i].1)
    } else {
        None
    }
}

/// `m` with `value` stored under `key`: in the place of the entry that had the
/// key, or at the end.
pub open spec fn put<V>(m: Seq<(Seq<char>, V)>, key: Seq<char>, value: V) -> Seq<(Seq<char>, V)> {
    let i = key_index(m, key);
    if i >= 0 {
        m.update(i, (key, value))
    } else {
        m.push((key, value))
    }
}

/// `m` without the entries under `key`.
pub open spec fn drop_key<V>(m: Seq<(Seq<char>, V)>, key: Seq<char>) -> Seq<(Seq<char>, V)>
    decreases m.len(),
{
    if m.len() == 0 {
        m
    } else {
        let init = drop_key(m.drop_last(), key);
        if m.last().0 == key {
            init
        } else {
            init.push(m.last())
        }
    }
}

/// No key occurs twice.
pub open spec fn distinct_keys<V>(m: Seq<(Seq<char>, V)>) -> bool {
    forall|i: int, j: int| 0 <= i < j < m.len() ==> (#[trigger] m[i]).0 != (#[trigger] m[j]).0
}

/// `key_index` is the least position that holds the key.
pub proof fn lemma_key_index<V>(m: Seq<(Seq<char>, V)>, key: Seq<char>)
    ensures
        -1 <= key_index(m, key) < m.len(),
        key_index(m, key) >= 0 ==> m[key_index(m, key)].0 == key,
        forall|j: int| 0 <= j < m.len() && (#[trigger] m[j]).0 == key
            ==> 0 <= key_index(m, key) <= j,
    decreases m.len(),
{
    if m.len() > 0 {
        let t = m.drop_last();
        lemma_key_index(t, key);
        assert forall|j: int| 0 <= j < m.len() && (#[trigger] m[j]).0 == key implies 0 <= key_index(
            m,
            key,
        ) <= j by {
            if j < m.len() - 1 {
                assert(t[j] == m[j]);
            }
        }
        if key_index(t, key) >= 0 {
            assert(t[key_index(t, key)] == m[key_index(t, key)]);
        }
    }
}

/// A position that holds the key with none before it is `key_index`.
pub proof fn lemma_key_index_is<V>(m: Seq<(Seq<char>, V)>, key: Seq<char>, r: int)
    requires
        -1 <= r < m.len(),
        r >= 0 ==> m[r].0 == key,
        forall|j: int| 0 <= j < (if r >= 0 { r } else { m.len() as int })
            ==> (#[trigger] m[j]).0 != key,
    ensures
        key_index(m, key) == r,
{
    lemma_key_index(m, key);
    let k = key_index(m, key);
    if k >= 0 {
        assert(m[k].0 == key);
    }
}

/// A value that was stored under a key is held under it.
pub proof fn lemma_put_held<V>(m: Seq<(Seq<char>, V)>, key: Seq<char>, value: V)
    ensures
        key_index(put(m, key, value), key) >= 0,
        lookup(put(m, key, value), key) == Some(value),
{
    lemma_key_index(m, key);
    let i = key_index(m, key);
    let r = put(m, key, value);
    let at = if i >= 0 { i } else { m.len() as int };
    assert forall|j: int| 0 <= j < at implies (#[trigger] r[j]).0 != key by {
        assert(r[j] == m[j]);
    }
    lemma_key_index_is(r, key, at);
}

/// Storing under a key keeps the keys distinct.
pub proof fn lemma_put_distinct<V>(m: Seq<(Seq<char>, V)>, key: Seq<char>, value: V)
    requires
        distinct_keys(m),
    ensures
        distinct_keys(put(m, key, value)),
        key_index(put(m, key, value), key) >= 0,
        lookup(put(m, key, value), key) == Some(value),
{
    lemma_key_index(m, key);
    let i = key_index(m, key);
    let r = put(m, key, value);
    if i >= 0 {
        assert forall|a: int, b: int| 0 <= a < b < r.len() implies (#[trigger] r[a]).0 != (
        #[trigger] r[b]).0 by {
            assert(m[a].0 != m[b].0);
        }
        assert forall|j: int| 0 <= j < i implies (#[trigger] r[j]).0 != key by {
            assert(r[j] == m[j]);
        }
        lemma_key_index_is(r, key, i);
    } else {
        assert forall|a: int, b: int| 0 <= a < b < r.len() implies (#[trigger] r[a]).0 != (
        #[trigger] r[b]).0 by {
            if b < m.len() {
                assert(m[a].0 != m[b].0);
            } else {
                assert(r[a] == m[a]);
            }
        }
        assert forall|j: int| 0 <= j < m.len() implies (#[trigger] r[j]).0 != key by {
            assert(r[j] == m[j]);
        }
        lemma_key_index_is(r, key, m.len() as int);
    }
}

/// What is left after `drop_key` holds nothing under the key.
pub proof fn lemma_drop_key<V>(m: Seq<(Seq<char>, V)>, key: Seq<char>)
    ensures
        key_index(drop_key(m, key), key) == -1,
        forall|j: int| 0 <= j < drop_key(m, key).len()
            ==> (#[trigger] drop_key(m, key)[j]).0 != key,
    decreases m.len(),
{
    let w = drop_key(m, key);
    if m.len() > 0 {
        let wi = drop_key(m.drop_last(), key);
        lemma_drop_key(m.drop_last(), key);
        assert forall|j: int| 0 <= j < w.len() implies (#[trigger] w[j]).0 != key by {
            if j < wi.len() {
                assert(w[j] == wi[j]);
            }
        }
    }
    lemma_key_index_is(w, key, -1);
}

/// The fields of one section, in the order in which they were first stored.
pub struct Fields {
    pub entries: Vec<(String, String)>,
}

/// The sections of one file, in the order in which they were first stored.
pub struct Sections {
    pub entries: Vec<(String, Fields)>,
}

impl View for Fields {
    type V = Seq<(Seq<char>, Seq<char>)>;

    open spec fn view(&self) -> Self::V {
        Seq::new(self.entries@.len(), |i: int| (self.entries@[i].0@, self.entries@[i].1@))
    }
}

impl View for Sections {
    type V = Seq<(Seq<char>, Seq<(Seq<char>, Seq<char>)>)>;

    open spec fn view(&self) -> Self::V {
        Seq::new(self.entries@.len(), |i: int| (self.entries@[i].0@, self.entries@[i].1@))
    }
}

impl Fields {
    /// No field name occurs twice.
    pub open spec fn wf(&self) -> bool {
        distinct_keys(self@)
    }

    pub fn new() -> (r: Fields)
        ensures
            r@ == Seq::<(Seq<char>, Seq<char>)>::empty(),
            r.wf(),
    {
        let r = Fields { entries: Vec::new() };
        assert(r@ =~= Seq::empty());
        r
    }

    pub fn len(&self) -> (n: usize)
        ensures
            n == self@.len(),
    {
        self.entries.len()
    }

    /// Where `key` is stored.
    pub fn position(&self, key: &String) -> (r: Option<usize>)
        ensures
            match r {
                Some(i) => i < self@.len() && i == key_index(self@, key@),
                None => key_index(self@, key@) == -1,
            },
    {
        let mut i: usize = 0;
        while i < self.entries.len()
            invariant
                i <= self.entries.len(),
                forall|j: int| 0 <= j < i ==> (#[trigger] self@[j]).0 != key@,
            decreases self.entries.len() - i,
        {
            if self.entries[i].0 == *key {
                proof {
                    lemma_key_index_is(self@, key@, i as int);
                }
                return Some(i);
            }
            i += 1;
        }
        proof {
            lemma_key_index_is(self@, key@, -1);
        }
        None
    }

    pub fn contains_key(&self, key: &str) -> (r: bool)
        ensures
            r == (lookup(self@, key@) is Some),
    {
        let k = key.to_owned();
        self.position(&k).is_some()
    }

    /// The value stored under `key`.
    pub fn get(&self, key: &str) -> (r: Option<String>)
        ensures
            r.deep_view() == lookup(self@, key@),
    {
        let k = key.to_owned();
        match self.position(&k) {
            Some(i) => Some(self.entries[i].1.clone()),
            None => None,
        }
    }

    /// Stores `value` under `key`, in the place of an earlier value or at the end.
    pub fn insert(&mut self, key: String, value: String)
        ensures
            final(self)@ == put(old(self)@, key@, value@),
            old(self).wf() ==> final(self).wf(),
    {
        match self.position(&key) {
            Some(i) => {
                self.entries[i] = (key, value);
            },
            None => {
                self.entries.push((key, value));
            },
        }
        proof {
            assert(final(self)@ =~= put(old(self)@, key@, value@));
            if old(self).wf() {
                lemma_put_distinct(old(self)@, key@, value@);
            }
        }
    }
}

impl Sections {
    /// No section name occurs twice, and no field name twice in a section.
    pub open spec fn wf(&self) -> bool {
        &&& distinct_keys(self@)
        &&& forall|i: int| 0 <= i < self@.len() ==> distinct_keys((#[trigger] self@[i]).1)
    }

    pub fn new() -> (r: Sections)
        ensures
            r@ == Seq::<(Seq<char>, Seq<(Seq<char>, Seq<char>)>)>::empty(),
            r.wf(),
    {
        let r = Sections { entries: Vec::new() };
        assert(r@ =~= Seq::empty());
        r
    }

    pub fn len(&self) -> (n: usize)
        ensures
            n == self@.len(),
    {
        self.entries.len()
    }

    /// Where the section `name` is stored.
    pub fn position(&self, name: &String) -> (r: Option<usize>)
        ensures
            match r {
                Some(i) => i < self@.len() && i == key_index(self@, name@),
                None => key_index(self@, name@) == -1,
            },
    {
        let mut i: usize = 0;
        while i < self.entries.len()
            invariant
                i <= self.entries.len(),
                forall|j: int| 0 <= j < i ==> (#[trigger] self@[j]).0 != name@,
            decreases self.entries.len() - i,
        {
            if self.entries[i].0 == *name {
                proof {
                    lemma_key_index_is(self@, name@, i as int);
                }
                return Some(i);
            }
            i += 1;
        }
        proof {
            lemma_key_index_is(self@, name@, -1);
        }
        None
    }

    pub fn contains_key(&self, name: &str) -> (r: bool)
        ensures
            r == (lookup(self@, name@) is Some),
    {
        let k = name.to_owned();
        self.position(&k).is_some()
    }

    /// The fields of the section `name`.
    pub fn get(&self, name: &str) -> (r: Option<&Fields>)
        ensures
            match r {
                Some(f) => lookup(self@, name@) == Some(f@),
                None => lookup(self@, name@) is None,
            },
    {
        let k = name.to_owned();
        match self.position(&k) {
            Some(i) => Some(&self.entries[i].1),
            None => None,
        }
    }

    /// The place of the section `name`, which is added empty at the end if
    /// there is none yet.
    pub fn open_section(&mut self, name: String) -> (r: usize)
        ensures
            r < final(self)@.len(),
            key_index(old(self)@, name@) >= 0 ==> r == key_index(old(self)@, name@) && final(self)@
                == old(self)@,
            key_index(old(self)@, name@) < 0
                ==> r == old(self)@.len() && final(self)@ == old(self)@.push((name@, Seq::empty())),
            old(self).wf() ==> final(self).wf(),
    {
        match self.position(&name) {
            Some(i) => i,
            None => {
                let ghost before = self@;
                let fields = Fields::new();
                self.entries.push((name, fields));
                proof {
                    assert(self@ =~= before.push((name@, Seq::empty())));
                    if old(self).wf() {
                        lemma_put_distinct(before, name@, Seq::<(Seq<char>, Seq<char>)>::empty());
                        assert forall|i: int| 0 <= i < self@.len() implies distinct_keys(
                            (#[trigger] self@[i]).1,
                        ) by {
                            if i < before.len() {
                                assert(self@[i] == before[i]);
                            }
                        }
                    }
                }
                self.entries.len() - 1
            },
        }
    }

    /// Stores `value` under `key` in the section at place `at`.
    pub fn insert_at(&mut self, at: usize, key: String, value: String)
        requires
            at < old(self)@.len(),
        ensures
            final(self)@ == old(self)@.update(
                at as int,
                (old(self)@[at as int].0, put(old(self)@[at as int].1, key@, value@)),
            ),
            old(self).wf() ==> final(self).wf(),
    {
        let ghost before = self@;
        self.entries[at].1.insert(key, value);
        proof {
            let after = before.update(
                at as int,
                (before[at as int].0, put(before[at as int].1, key@, value@)),
            );
            assert(self@ =~= after);
            if old(self).wf() {
                assert(distinct_keys(before[at as int].1));
                lemma_put_distinct(before[at as int].1, key@, value@);
                assert forall|i: int, j: int| 0 <= i < j < after.len() implies (
                #[trigger] after[i]).0 != (#[trigger] after[j]).0 by {
                    assert(before[i].0 != before[j].0);
                }
                assert forall|i: int| 0 <= i < after.len() implies distinct_keys(
                    (#[trigger] after[i]).1,
                ) by {
                    if i != at {
                        assert(after[i] == before[i]);
                    }
                }
            }
        }
    }

    /// Stores `fields` as the section `name`, in the place of an earlier
    /// section of that name or at the end.
    pub fn insert(&mut self, name: String, fields: Fields)
        ensures
            final(self)@ == put(old(self)@, name@, fields@),
            old(self).wf() && fields.wf() ==> final(self).wf(),
    {
        match self.position(&name) {
            Some(i) => {
                self.entries[i] = (name, fields);
            },
            None => {
                self.entries.push((name, fields));
            },
        }
        proof {
            assert(final(self)@ =~= put(old(self)@, name@, fields@));
            if old(self).wf() && fields.wf() {
                lemma_put_distinct(old(self)@, name@, fields@);
                lemma_key_index(old(self)@, name@);
                assert forall|i: int| 0 <= i < final(self)@.len() implies distinct_keys(
                    (#[trigger] final(self)@[i]).1,
                ) by {
                    if i < old(self)@.len() && i != key_index(old(self)@, name@) {
                        assert(final(self)@[i] == old(self)@[i]);
                    }
                }
            }
        }
    }
}

} // verus!
