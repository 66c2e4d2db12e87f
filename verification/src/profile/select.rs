//! The selection store: which profile is the active one.

use crate::utils::file::{FieldSeq, SectionSeq};
use crate::utils::sections::{
    drop_key, key_index, lemma_drop_key, lemma_key_index_is, lemma_put_held, lookup, put, Fields,
    Sections,
};
use crate::utils::{AWSFile, AWSFileManager};
use vstd::prelude::*;

verus! {

/// The active profile.
#[derive(Debug)]
pub struct Selected {
    pub name: String,
    pub region: String,
}

/// A selection as the contracts see it.
pub struct SelectedView {
    pub name: Seq<char>,
    pub region: Seq<char>,
}

impl View for Selected {
    type V = SelectedView;

    open spec fn view(&self) -> SelectedView {
        SelectedView { name: self.name@, region: self.region@ }
    }
}

impl Clone for Selected {
    fn clone(&self) -> (r: Self)
        ensures
            r@ == self@,
    {
        Selected { name: self.name.clone(), region: self.region.clone() }
    }
}

/// The selection store: records under keys, of which the tool itself writes
/// one only, under the key `selected`.
pub struct AWSSelecteds {
    pub items: Vec<(String, Selected)>,
}

impl View for AWSSelecteds {
    type V = Seq<(Seq<char>, SelectedView)>;

    open spec fn view(&self) -> Self::V {
        Seq::new(self.items@.len(), |i: int| (self.items@[i].0@, self.items@[i].1@))
    }
}

/// The fields that a selection writes.
pub open spec fn selected_fields(s: SelectedView) -> FieldSeq {
    put(put(Seq::empty(), "name"@, s.name), "region"@, s.region)
}

/// Whether a section can be read as a selection: it gives a name and a
/// region.
pub open spec fn selected_ready(f: FieldSeq) -> bool {
    lookup(f, "name"@) is Some && lookup(f, "region"@) is Some
}

/// The selection that a section gives.
pub open spec fn selected_of(f: FieldSeq) -> SelectedView {
    SelectedView { name: lookup(f, "name"@).unwrap(), region: lookup(f, "region"@).unwrap() }
}

/// The records that the sections give, each under the name of its section.
pub open spec fn selecteds_loaded(val: SectionSeq) -> Seq<(Seq<char>, SelectedView)>
    decreases val.len(),
{
    if val.len() == 0 {
        Seq::empty()
    } else {
        put(selecteds_loaded(val.drop_last()), val.last().0, selected_of(val.last().1))
    }
}

/// `into` after each record of `list` was stored under its key.
pub open spec fn selecteds_stored(
    list: Seq<(Seq<char>, SelectedView)>,
    into: SectionSeq,
) -> SectionSeq
    decreases list.len(),
{
    if list.len() == 0 {
        into
    } else {
        put(selecteds_stored(list.drop_last(), into), list.last().0, selected_fields(list.last().1))
    }
}

/// The store that names the profile `name` in `region` as the active one, and
/// holds nothing else.
pub fn new_selected(name: String, region: String) -> (r: AWSSelecteds)
    ensures
        r@ == seq![("selected"@, (SelectedView { name: name@, region: region@ }))],
{
    let mut items: Vec<(String, Selected)> = Vec::new();
    items.push(("selected".to_string(), Selected { name, region }));
    let r = AWSSelecteds { items };
    assert(r@ =~= seq![("selected"@, (SelectedView { name: name@, region: region@ }))]);
    r
}

impl AWSSelecteds {
    /// Place of the record under `key`.
    pub fn position(&self, key: &String) -> (r: Option<usize>)
        ensures
            match r {
                Some(i) => i < self@.len() && i == key_index(self@, key@),
                None => key_index(self@, key@) == -1,
            },
    {
        let mut i: usize = 0;
        while i < self.items.len()
            invariant
                i <= self.items.len(),
                forall|j: int| 0 <= j < i ==> (#[trigger] self@[j]).0 != key@,
            decreases self.items.len() - i,
        {
            if self.items[i].0 == *key {
                proof {
                    lemma_key_index_is(self@, key@, i as int);
                }
                return Some(i);
            }
            i += 1;
        }
        proof {
            lemma_key_index_is(self@, key@, -1);
        }
        None
    }

    /// The record under `key`.
    pub fn get(&self, key: &str) -> (r: Option<&Selected>)
        ensures
            match r {
                Some(s) => lookup(self@, key@) == Some(s@),
                None => lookup(self@, key@) is None,
            },
    {
        let k = key.to_owned();
        match self.position(&k) {
            Some(i) => Some(&self.items[i].1),
            None => None,
        }
    }

    /// Stores `data` under `key`, in the place of an earlier record or at the
    /// end.
    fn place(&mut self, key: String, data: Selected)
        ensures
            final(self)@ == put(old(self)@, key@, data@),
    {
        match self.position(&key) {
            Some(i) => {
                self.items[i] = (key, data);
            },
            None => {
                self.items.push((key, data));
            },
        }
        assert(final(self)@ =~= put(old(self)@, key@, data@));
    }
}

impl AWSFileManager<Selected> for AWSSelecteds {
    open spec fn loadable(val: SectionSeq) -> bool {
        forall|i: int| 0 <= i < val.len() ==> selected_ready((#[trigger] val[i]).1)
    }

    open spec fn file_sections(&self) -> SectionSeq {
        selecteds_stored(self@, Seq::empty())
    }

    open spec fn holds(&self, name: Seq<char>) -> bool {
        key_index(self@, name) >= 0
    }

    open spec fn name_of(data: &Selected) -> Seq<char> {
        data.name@
    }

    open spec fn loaded_from(&self, val: SectionSeq) -> bool {
        self@ == selecteds_loaded(val)
    }

    /// Whether a store can be built from `val`: every section gives a name
    /// and a region.
    fn can_load(val: &Sections) -> (r: bool) {
        let mut i: usize = 0;
        while i < val.entries.len()
            invariant
                i <= val.entries.len(),
                forall|j: int| 0 <= j < i ==> selected_ready((#[trigger] val@[j]).1),
            decreases val.entries.len() - i,
        {
            if !val.entries[i].1.contains_key("name") || !val.entries[i].1.contains_key("region") {
                assert(!selected_ready(val@[i as int].1));
                return false;
            }
            i += 1;
        }
        true
    }

    /// The store that the sections give: one record for each section, under
    /// the name of the section.
    fn new(val: Sections) -> (r: AWSSelecteds) {
        let mut store = AWSSelecteds { items: Vec::new() };
        let mut i: usize = 0;
        proof {
            assert(val@.take(0) =~= Seq::empty());
            assert(store@ =~= Seq::empty());
        }
        while i < val.entries.len()
            invariant
                i <= val.entries.len(),
                forall|j: int| 0 <= j < val@.len() ==> selected_ready((#[trigger] val@[j]).1),
                store@ == selecteds_loaded(val@.take(i as int)),
            decreases val.entries.len() - i,
        {
            proof {
                let t = val@.take(i + 1);
                assert(t.drop_last() =~= val@.take(i as int));
                assert(t.last() == val@[i as int]);
                assert(selected_ready(val@[i as int].1));
            }
            let name = val.entries[i].1.get("name");
            let region = val.entries[i].1.get("region");
            let data = Selected { name: name.unwrap(), region: region.unwrap() };
            store.place(val.entries[i].0.clone(), data);
            i += 1;
        }
        proof {
            assert(val@.take(val@.len() as int) =~= val@);
        }
        store
    }

    /// The sections of the store: one for each record, under its key.
    fn to_file(&self) -> (r: Sections) {
        let mut list = Sections::new();
        let mut i: usize = 0;
        proof {
            assert(self@.take(0) =~= Seq::empty());
        }
        while i < self.items.len()
            invariant
                i <= self.items.len(),
                list.wf(),
                list@ == selecteds_stored(self@.take(i as int), Seq::empty()),
            decreases self.items.len() - i,
        {
            proof {
                let t = self@.take(i + 1);
                assert(t.drop_last() =~= self@.take(i as int));
                assert(t.last() == self@[i as int]);
            }
            list.insert(self.items[i].0.clone(), self.items[i].1.to_file_map());
            i += 1;
        }
        proof {
            assert(self@.take(self@.len() as int) =~= self@);
        }
        list
    }

    /// Stores `data` under its own name.
    fn add(&mut self, data: Selected)
        ensures
            final(self)@ == put(old(self)@, data@.name, data@),
    {
        proof {
            lemma_put_held(self@, data@.name, data@);
        }
        let key = data.name.clone();
        self.place(key, data);
    }

    /// Drops the records under `name`.
    fn remove(&mut self, name: String)
        ensures
            final(self)@ == drop_key(old(self)@, name@),
    {
        let mut out: Vec<(String, Selected)> = Vec::new();
        let ghost all = self@;
        let mut i: usize = 0;
        proof {
            assert(all.take(0) =~= Seq::empty());
        }
        while i < self.items.len()
            invariant
                i <= self.items.len(),
                all == self@,
                (AWSSelecteds { items: out })@ == drop_key(all.take(i as int), name@),
            decreases self.items.len() - i,
        {
            let ghost before = (AWSSelecteds { items: out })@;
            proof {
                let t = all.take(i + 1);
                assert(t.drop_last() =~= all.take(i as int));
                assert(t.last() == all[i as int]);
            }
            if self.items[i].0 != name {
                out.push((self.items[i].0.clone(), self.items[i].1.clone()));
                proof {
                    assert((AWSSelecteds { items: out })@ =~= before.push(all[i as int]));
                }
            }
            i += 1;
        }
        proof {
            assert(all.take(all.len() as int) =~= all);
            lemma_drop_key(all, name@);
        }
        self.items = out;
    }
}

impl AWSFile for Selected {
    open spec fn file_fields(&self) -> FieldSeq {
        selected_fields(self@)
    }

    fn to_file_map(&self) -> (r: Fields) {
        let mut list = Fields::new();
        list.insert("name".to_string(), self.name.clone());
        list.insert("region".to_string(), self.region.clone());
        list
    }
}

} // verus!
