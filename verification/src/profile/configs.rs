//! The config store: for each profile its region and its output format.

use crate::utils::file::{FieldSeq, SectionSeq};
use crate::utils::sections::{
    key_index, lemma_key_index, lemma_key_index_is, lookup, put, Fields, Sections,
};
use crate::utils::text::{chars_of, slice, starts_with, string_of};
use crate::utils::{AWSFile, AWSFileManager};
use vstd::prelude::*;

verus! {

/// The settings of one profile.
#[derive(Debug)]
pub struct Config {
    pub name: String,
    pub region: String,
    pub output: String,
}

/// A config as the contracts see it.
pub struct ConfigView {
    pub name: Seq<char>,
    pub region: Seq<char>,
    pub output: Seq<char>,
}

impl View for Config {
    type V = ConfigView;

    open spec fn view(&self) -> ConfigView {
        ConfigView { name: self.name@, region: self.region@, output: self.output@ }
    }
}

impl Clone for Config {
    fn clone(&self) -> (r: Self)
        ensures
            r@ == self@,
    {
        Config {
            name: self.name.clone(),
            region: self.region.clone(),
            output: self.output.clone(),
        }
    }
}

/// The config store: the profiles in the order in which they were added.
pub struct AWSConfigs {
    pub items: Vec<Config>,
}

/// The configs as the contracts see them.
pub open spec fn config_views(list: Seq<Config>) -> Seq<ConfigView> {
    Seq::new(list.len(), |i: int| list[i]@)
}

impl View for AWSConfigs {
    type V = Seq<ConfigView>;

    open spec fn view(&self) -> Seq<ConfigView> {
        config_views(self.items@)
    }
}

/// The configs, each under its name.
pub open spec fn keyed(list: Seq<ConfigView>) -> Seq<(Seq<char>, ConfigView)> {
    Seq::new(list.len(), |i: int| (list[i].name, list[i]))
}

/// Place of the first config named `name`, or -1.
pub open spec fn config_index(list: Seq<ConfigView>, name: Seq<char>) -> int {
    key_index(keyed(list), name)
}

/// The names of the configs, in their order.
pub open spec fn names(list: Seq<ConfigView>) -> Seq<Seq<char>> {
    Seq::new(list.len(), |i: int| list[i].name)
}

/// No name occurs twice.
pub open spec fn distinct_names(list: Seq<ConfigView>) -> bool {
    forall|i: int, j: int| 0 <= i < j < list.len()
        ==> (#[trigger] list[i]).name != (#[trigger] list[j]).name
}

/// `list` with `c` in the place of the config of its name, or at the end.
pub open spec fn placed(list: Seq<ConfigView>, c: ConfigView) -> Seq<ConfigView> {
    let i = config_index(list, c.name);
    if i >= 0 {
        list.update(i, c)
    } else {
        list.push(c)
    }
}

/// `list` without the configs named `name`.
pub open spec fn dropped(list: Seq<ConfigView>, name: Seq<char>) -> Seq<ConfigView>
    decreases list.len(),
{
    if list.len() == 0 {
        list
    } else {
        let init = dropped(list.drop_last(), name);
        if list.last().name == name {
            init
        } else {
            init.push(list.last())
        }
    }
}

/// What a section name may start with, for the tools that write
/// `profile <name>`.
pub open spec fn profile_prefix() -> Seq<char> {
    seq!['p', 'r', 'o', 'f', 'i', 'l', 'e', ' ']
}

/// The name of the profile that a section is about: the section's name
/// without the prefix, if it starts with it.
pub open spec fn profile_name(section: Seq<char>) -> Seq<char> {
    if profile_prefix().is_prefix_of(section) {
        section.skip(profile_prefix().len() as int)
    } else {
        section
    }
}

/// The fields that a config writes.
pub open spec fn config_fields(c: ConfigView) -> FieldSeq {
    put(put(Seq::empty(), "region"@, c.region), "output"@, c.output)
}

/// Whether a section can be read as a config: it gives a region and an
/// output format.
pub open spec fn config_ready(f: FieldSeq) -> bool {
    lookup(f, "region"@) is Some && lookup(f, "output"@) is Some
}

/// The config that a section gives.
pub open spec fn config_of(section: Seq<char>, f: FieldSeq) -> ConfigView {
    ConfigView {
        name: profile_name(section),
        region: lookup(f, "region"@).unwrap(),
        output: lookup(f, "output"@).unwrap(),
    }
}

/// The configs that the sections give, each placed under its name.
pub open spec fn configs_loaded(val: SectionSeq) -> Seq<ConfigView>
    decreases val.len(),
{
    if val.len() == 0 {
        Seq::empty()
    } else {
        placed(configs_loaded(val.drop_last()), config_of(val.last().0, val.last().1))
    }
}

/// `into` after each config of `list` was stored under its name.
pub open spec fn configs_stored(list: Seq<ConfigView>, into: SectionSeq) -> SectionSeq
    decreases list.len(),
{
    if list.len() == 0 {
        into
    } else {
        put(configs_stored(list.drop_last(), into), list.last().name, config_fields(list.last()))
    }
}

/// `config_index` is the least place that holds the name.
pub proof fn lemma_config_index(list: Seq<ConfigView>, name: Seq<char>)
    ensures
        -1 <= config_index(list, name) < list.len(),
        config_index(list, name) >= 0 ==> list[config_index(list, name)].name == name,
        forall|j: int| 0 <= j < list.len() && (#[trigger] list[j]).name == name
            ==> 0 <= config_index(list, name) <= j,
{
    lemma_key_index(keyed(list), name);
    assert forall|j: int| 0 <= j < list.len() && (#[trigger] list[j]).name == name implies 0
        <= config_index(list, name) <= j by {
        assert(keyed(list)[j].0 == name);
    }
}

/// A place that holds the name with none before it is `config_index`.
pub proof fn lemma_config_index_is(list: Seq<ConfigView>, name: Seq<char>, r: int)
    requires
        -1 <= r < list.len(),
        r >= 0 ==> list[r].name == name,
        forall|j: int| 0 <= j < (if r >= 0 { r } else { list.len() as int })
            ==> (#[trigger] list[j]).name != name,
    ensures
        config_index(list, name) == r,
{
    let m = keyed(list);
    assert forall|j: int| 0 <= j < (if r >= 0 { r } else { m.len() as int }) implies
        (#[trigger] m[j]).0 != name by {
        assert(list[j].name != name);
    }
    lemma_key_index_is(m, name, r);
}

/// Placing a config keeps the names distinct, and the config is then found
/// under its name.
pub proof fn lemma_placed(list: Seq<ConfigView>, c: ConfigView)
    ensures
        config_index(placed(list, c), c.name) >= 0,
        placed(list, c)[config_index(placed(list, c), c.name)] == c,
        distinct_names(list) ==> distinct_names(placed(list, c)),
{
    lemma_config_index(list, c.name);
    let i = config_index(list, c.name);
    let r = placed(list, c);
    let at = if i >= 0 { i } else { list.len() as int };
    assert forall|j: int| 0 <= j < at implies (#[trigger] r[j]).name != c.name by {
        assert(r[j] == list[j]);
        assert(list[j].name != c.name);
    }
    lemma_config_index_is(r, c.name, at);
    if distinct_names(list) {
        assert forall|a: int, b: int| 0 <= a < b < r.len() implies (#[trigger] r[a]).name != (
        #[trigger] r[b]).name by {
            if i >= 0 {
                assert(list[a].name != list[b].name);
            } else if b < list.len() {
                assert(list[a].name != list[b].name);
            } else {
                assert(r[a] == list[a]);
            }
        }
    }
}

/// What is left holds no config named `name`, keeps the names distinct, and
/// holds every other name exactly if it was held before.
pub proof fn lemma_dropped(list: Seq<ConfigView>, name: Seq<char>, other: Seq<char>)
    ensures
        config_index(dropped(list, name), name) == -1,
        forall|j: int| 0 <= j < dropped(list, name).len() ==> exists|k: int|
            0 <= k < list.len() && #[trigger] list[k] == #[trigger] dropped(list, name)[j],
        other != name ==> (config_index(dropped(list, name), other) >= 0 <==> config_index(
            list,
            other,
        ) >= 0),
        distinct_names(list) ==> distinct_names(dropped(list, name)),
    decreases list.len(),
{
    let w = dropped(list, name);
    if list.len() == 0 {
        lemma_config_index_is(w, name, -1);
    } else {
        let init = list.drop_last();
        let wi = dropped(init, name);
        lemma_dropped(init, name, other);
        assert forall|j: int| 0 <= j < w.len() implies exists|k: int|
            0 <= k < list.len() && #[trigger] list[k] == #[trigger] w[j] by {
            if j < wi.len() {
                assert(w[j] == wi[j]);
                let k = choose|k: int| 0 <= k < init.len() && #[trigger] init[k]
                    == #[trigger] wi[j];
                assert(list[k] == init[k]);
            } else {
                assert(list[list.len() - 1] == w[j]);
            }
        }
        lemma_config_index(wi, name);
        assert forall|j: int| 0 <= j < w.len() implies (#[trigger] w[j]).name != name by {
            if j < wi.len() {
                assert(w[j] == wi[j]);
            }
        }
        lemma_config_index_is(w, name, -1);
        lemma_config_index(list, other);
        lemma_config_index(init, other);
        lemma_config_index(w, other);
        lemma_config_index(wi, other);
        if other != name {
            let a = config_index(init, other);
            let b = config_index(wi, other);
            if a >= 0 {
                assert(list[a] == init[a]);
                assert(w[b] == wi[b]);
            } else {
                if config_index(list, other) >= 0 {
                    let k = config_index(list, other);
                    if k < init.len() {
                        assert(init[k] == list[k]);
                    }
                    assert(w[w.len() - 1] == list.last());
                }
                if config_index(w, other) >= 0 {
                    let k = config_index(w, other);
                    if k < wi.len() {
                        assert(wi[k] == w[k]);
                    }
                }
            }
        }
        if distinct_names(list) {
            assert(distinct_names(init)) by {
                assert forall|a: int, b: int| 0 <= a < b < init.len() implies
                    (#[trigger] init[a]).name != (
                #[trigger] init[b]).name by {
                    assert(list[a].name != list[b].name);
                }
            }
            assert forall|a: int, b: int| 0 <= a < b < w.len() implies (#[trigger] w[a]).name != (
            #[trigger] w[b]).name by {
                if b < wi.len() {
                    assert(w[a] == wi[a] && w[b] == wi[b]);
                } else {
                    assert(w[a] == wi[a]);
                    let k = choose|k: int| 0 <= k < init.len() && #[trigger] init[k]
                        == #[trigger] wi[a];
                    assert(list[k].name != list[list.len() - 1].name);
                }
            }
        }
    }
}

/// What `selection_config_name` finds.
pub enum Selection {
    /// No profile is registered.
    NoProfiles,
    /// This profile is meant.
    Chosen(String),
    /// A profile was named that is not registered.
    Unknown(String),
    /// The user has to pick one of these names.
    Ask(Vec<String>),
}

/// `Selection` as the contracts see it.
pub enum SelectionView {
    NoProfiles,
    Chosen(Seq<char>),
    Unknown(Seq<char>),
    Ask(Seq<Seq<char>>),
}

impl View for Selection {
    type V = SelectionView;

    open spec fn view(&self) -> SelectionView {
        match self {
            Selection::NoProfiles => SelectionView::NoProfiles,
            Selection::Chosen(n) => SelectionView::Chosen(n@),
            Selection::Unknown(n) => SelectionView::Unknown(n@),
            Selection::Ask(v) => SelectionView::Ask(v.deep_view()),
        }
    }
}

/// The answer to the question which profile is meant. Without a registered
/// profile there is none. A profile that was asked for is the answer if it is
/// registered, and unknown if it is not. Where none was asked for, the only
/// registered profile is the answer, and among several the user has to pick.
pub open spec fn selection_of(list: Seq<ConfigView>, profile: Option<Seq<char>>) -> SelectionView {
    if list.len() == 0 {
        SelectionView::NoProfiles
    } else {
        match profile {
            Some(p) => if config_index(list, p) >= 0 {
                SelectionView::Chosen(p)
            } else {
                SelectionView::Unknown(p)
            },
            None => if list.len() == 1 {
                SelectionView::Chosen(list[0].name)
            } else {
                SelectionView::Ask(names(list))
            },
        }
    }
}

/// A profile that is chosen is registered.
pub proof fn lemma_chosen_registered(list: Seq<ConfigView>, profile: Option<Seq<char>>)
    ensures
        selection_of(list, profile) matches SelectionView::Chosen(n) ==> config_index(list, n) >= 0,
{
    if list.len() == 1 && profile is None {
        lemma_config_index_is(list, list[0].name, 0);
    }
}

impl AWSConfigs {
    /// No name occurs twice.
    pub open spec fn wf(&self) -> bool {
        distinct_names(self@)
    }

    /// Place of the first config named `name`.
    pub fn position(&self, name: &String) -> (r: Option<usize>)
        ensures
            match r {
                Some(i) => i < self@.len() && i == config_index(self@, name@),
                None => config_index(self@, name@) == -1,
            },
    {
        let mut i: usize = 0;
        while i < self.items.len()
            invariant
                i <= self.items.len(),
                forall|j: int| 0 <= j < i ==> (#[trigger] self@[j]).name != name@,
            decreases self.items.len() - i,
        {
            if self.items[i].name == *name {
                proof {
                    lemma_config_index_is(self@, name@, i as int);
                }
                return Some(i);
            }
            i += 1;
        }
        proof {
            lemma_config_index_is(self@, name@, -1);
        }
        None
    }

    /// The config of the profile `name`.
    pub fn get(&self, name: &String) -> (r: Option<&Config>)
        ensures
            match r {
                Some(c) => config_index(self@, name@) >= 0 && c@ == self@[config_index(
                    self@,
                    name@,
                )],
                None => config_index(self@, name@) == -1,
            },
    {
        match self.position(name) {
            Some(i) => Some(&self.items[i]),
            None => None,
        }
    }

    /// The names of the profiles, for the user to pick from.
    pub fn shape_for_selectable(&self) -> (r: Vec<String>)
        ensures
            r.deep_view() == names(self@),
            r.len() == self@.len(),
            forall|j: int| 0 <= j < r.len() ==> (#[trigger] r@[j])@ == self@[j].name,
    {
        let mut out: Vec<String> = Vec::new();
        let mut i: usize = 0;
        while i < self.items.len()
            invariant
                i <= self.items.len(),
                out.len() == i,
                forall|j: int| 0 <= j < i ==> (#[trigger] out@[j])@ == self@[j].name,
            decreases self.items.len() - i,
        {
            out.push(self.items[i].name.clone());
            i += 1;
        }
        assert(out.deep_view() =~= names(self@));
        out
    }

    /// Whether the profile `name` is registered.
    pub fn exists_config(&self, name: String) -> (r: bool)
        ensures
            r == (config_index(self@, name@) >= 0),
    {
        self.position(&name).is_some()
    }

    /// Which profile is meant, when `profile` was asked for; see
    /// `selection_of`.
    pub fn selection_config_name(&self, profile: Option<String>) -> (r: Selection)
        ensures
            r@ == selection_of(self@, profile.deep_view()),
    {
        let mut selections = self.shape_for_selectable();
        if selections.len() == 0 {
            return Selection::NoProfiles;
        }
        match profile {
            Some(p) => {
                if !self.exists_config(p.clone()) {
                    Selection::Unknown(p)
                } else {
                    Selection::Chosen(p)
                }
            },
            None => {
                if selections.len() == 1 {
                    let only = selections.pop().unwrap();
                    Selection::Chosen(only)
                } else {
                    Selection::Ask(selections)
                }
            },
        }
    }

    /// The name that the user picked: the one at place `answer` among
    /// `selections`, and none where the user gave up.
    pub fn selection_from_prompt(selections: &Vec<String>, answer: Option<usize>) -> (r: Option<
        String,
    >)
        requires
            answer matches Some(i) ==> i < selections.len(),
        ensures
            match answer {
                Some(i) => r.deep_view() == Some(selections@[i as int]@),
                None => r is None,
            },
    {
        match answer {
            Some(i) => Some(selections[i].clone()),
            None => None,
        }
    }

    /// Puts `data` in the place of the config of its name, or at the end.
    fn place(&mut self, data: Config)
        ensures
            final(self)@ == placed(old(self)@, data@),
    {
        match self.position(&data.name) {
            Some(i) => {
                self.items[i] = data;
            },
            None => {
                self.items.push(data);
            },
        }
        assert(final(self)@ =~= placed(old(self)@, data@));
    }
}

/// The name of the profile that the section `section` is about.
pub fn profile_key(section: &String) -> (r: String)
    ensures
        r@ == profile_name(section@),
{
    let chars = chars_of(section.as_str());
    let head = chars_of("profile ");
    proof {
        reveal_strlit("profile ");
        assert(head@ =~= profile_prefix());
    }
    if starts_with(&chars, &head) {
        let rest = slice(&chars, head.len(), chars.len());
        string_of(&rest)
    } else {
        section.clone()
    }
}

impl AWSFileManager<Config> for AWSConfigs {
    open spec fn loadable(val: SectionSeq) -> bool {
        forall|i: int| 0 <= i < val.len() ==> config_ready((#[trigger] val[i]).1)
    }

    open spec fn file_sections(&self) -> SectionSeq {
        configs_stored(self@, Seq::empty())
    }

    open spec fn holds(&self, name: Seq<char>) -> bool {
        config_index(self@, name) >= 0
    }

    open spec fn name_of(data: &Config) -> Seq<char> {
        data.name@
    }

    open spec fn loaded_from(&self, val: SectionSeq) -> bool {
        self@ == configs_loaded(val) && self.wf()
    }

    /// Whether a store can be built from `val`: every section gives a region
    /// and an output format.
    fn can_load(val: &Sections) -> (r: bool) {
        let mut i: usize = 0;
        while i < val.entries.len()
            invariant
                i <= val.entries.len(),
                forall|j: int| 0 <= j < i ==> config_ready((#[trigger] val@[j]).1),
            decreases val.entries.len() - i,
        {
            if !val.entries[i].1.contains_key("region")
                || !val.entries[i].1.contains_key("output") {
                assert(!config_ready(val@[i as int].1));
                return false;
            }
            i += 1;
        }
        true
    }

    /// The store that the sections give: each section is the config of the
    /// profile that its name stands for, and a later section of the same
    /// profile takes the place of an earlier one.
    fn new(val: Sections) -> (r: AWSConfigs) {
        let mut configs = AWSConfigs { items: Vec::new() };
        let mut i: usize = 0;
        proof {
            assert(val@.take(0) =~= Seq::empty());
            assert(configs@ =~= Seq::empty());
        }
        while i < val.entries.len()
            invariant
                i <= val.entries.len(),
                forall|j: int| 0 <= j < val@.len() ==> config_ready((#[trigger] val@[j]).1),
                configs@ == configs_loaded(val@.take(i as int)),
                configs.wf(),
            decreases val.entries.len() - i,
        {
            proof {
                let t = val@.take(i + 1);
                assert(t.drop_last() =~= val@.take(i as int));
                assert(t.last() == val@[i as int]);
                assert(config_ready(val@[i as int].1));
            }
            let name = profile_key(&val.entries[i].0);
            let region = val.entries[i].1.get("region");
            let output = val.entries[i].1.get("output");
            let data = Config { name, region: region.unwrap(), output: output.unwrap() };
            proof {
                lemma_placed(configs@, data@);
            }
            configs.place(data);
            i += 1;
        }
        proof {
            assert(val@.take(val@.len() as int) =~= val@);
        }
        configs
    }

    /// The sections of the store: one for each profile, under its name.
    fn to_file(&self) -> (r: Sections) {
        let mut list = Sections::new();
        let mut i: usize = 0;
        proof {
            assert(self@.take(0) =~= Seq::empty());
        }
        while i < self.items.len()
            invariant
                i <= self.items.len(),
                list.wf(),
                list@ == configs_stored(self@.take(i as int), Seq::empty()),
            decreases self.items.len() - i,
        {
            proof {
                let t = self@.take(i + 1);
                assert(t.drop_last() =~= self@.take(i as int));
                assert(t.last() == self.items@[i as int]@);
            }
            list.insert(self.items[i].name.clone(), self.items[i].to_file_map());
            i += 1;
        }
        proof {
            assert(self@.take(self@.len() as int) =~= self@);
        }
        list
    }

    /// Registers `data`, in the place of the profile of that name if there
    /// is one.
    fn add(&mut self, data: Config)
        ensures
            final(self)@ == placed(old(self)@, data@),
            old(self).wf() ==> final(self).wf(),
    {
        proof {
            lemma_placed(self@, data@);
        }
        self.place(data);
    }

    /// Drops the profile `name`.
    fn remove(&mut self, name: String)
        ensures
            final(self)@ == dropped(old(self)@, name@),
            old(self).wf() ==> final(self).wf(),
    {
        let mut out: Vec<Config> = Vec::new();
        let mut i: usize = 0;
        proof {
            assert(self@.take(0) =~= Seq::empty());
            assert(config_views(out@) =~= Seq::empty());
        }
        while i < self.items.len()
            invariant
                i <= self.items.len(),
                config_views(out@) == dropped(self@.take(i as int), name@),
            decreases self.items.len() - i,
        {
            let ghost before = config_views(out@);
            proof {
                let t = self@.take(i + 1);
                assert(t.drop_last() =~= self@.take(i as int));
                assert(t.last() == self.items@[i as int]@);
            }
            if self.items[i].name != name {
                out.push(self.items[i].clone());
                proof {
                    assert(config_views(out@) =~= before.push(self.items@[i as int]@));
                }
            }
            i += 1;
        }
        proof {
            assert(self@.take(self@.len() as int) =~= self@);
            lemma_dropped(self@, name@, name@);
        }
        self.items = out;
    }
}

impl AWSFile for Config {
    open spec fn file_fields(&self) -> FieldSeq {
        config_fields(self@)
    }

    fn to_file_map(&self) -> (r: Fields) {
        let mut list = Fields::new();
        list.insert("region".to_string(), self.region.clone());
        list.insert("output".to_string(), self.output.clone());
        list
    }
}

} // verus!
