//! Plugin state tracking.
//!
//! Tracks which plugins are loaded, pending, or errored, along with timing
//! information for each load operation.

use vstd::prelude::*;

use crate::load_time;
use crate::load_time::LoadTime;
use crate::text;
use crate::text::Named;

verus! {

/// The lifecycle state of a single plugin.
#[derive(Debug, Clone, PartialEq, Eq)]
pub enum PluginStatus {
    /// Registered but not yet loaded (waiting for a lazy trigger or not yet
    /// reached in the load order).
    Pending,
    /// Successfully loaded.
    Loaded {
        /// How long it took to call `require()` and initialize.
        load_time: LoadTime,
    },
    /// Failed to load.
    Errored {
        /// Human-readable error message.
        message: String,
    },
}

/// Per-plugin tracking entry.
#[derive(Debug, Clone)]
pub struct PluginEntry {
    pub name: String,
    pub status: PluginStatus,
}

/// What a [`PluginStatus`] says.
#[verifier::ext_equal]
pub enum StatusModel {
    Pending,
    Loaded { load_time: nat },
    Errored { message: Seq<char> },
}

impl View for PluginStatus {
    type V = StatusModel;

    open spec fn view(&self) -> StatusModel {
        match *self {
            PluginStatus::Pending => StatusModel::Pending,
            PluginStatus::Loaded { load_time } => StatusModel::Loaded { load_time: load_time@ },
            PluginStatus::Errored { message } => StatusModel::Errored { message: message@ },
        }
    }
}

impl StatusModel {
    /// The status in words.
    pub open spec fn words(self) -> Seq<char> {
        match self {
            StatusModel::Pending => "pending"@,
            StatusModel::Loaded { load_time } => loaded_words(load_time::words(load_time)),
            StatusModel::Errored { message } => "error: "@ + message,
        }
    }
}

/// "Loaded" in words, with how long it took.
pub open spec fn loaded_words(time: Seq<char>) -> Seq<char> {
    "loaded ("@ + time + ")"@
}

/// Words "loaded", with how long it took.
pub fn loaded_text(time: &str) -> (words: String)
    ensures
        words@ == loaded_words(time@),
{
    let mut words = "loaded (".to_owned();
    words.append(time);
    words.append(")");
    words
}

impl PluginStatus {
    /// Puts the status in words.
    pub fn to_string(&self) -> (words: String)
        ensures
            words@ == self@.words(),
    {
        match self {
            PluginStatus::Pending => "pending".to_owned(),
            PluginStatus::Loaded { load_time } => {
                let time = load_time.to_string();
                loaded_text(time.as_str())
            },
            PluginStatus::Errored { message } => {
                let mut words = "error: ".to_owned();
                words.append(message.as_str());
                words
            },
        }
    }
}

impl Named for PluginEntry {
    open spec fn called(&self) -> Seq<char> {
        self.name@
    }

    fn name(&self) -> (name: &str) {
        self.name.as_str()
    }
}

/// The plugins that are tracked, each with its status.
#[derive(Debug)]
pub struct State {
    entries: Vec<PluginEntry>,
}

/// The table that a list of entries makes.
spec fn table(entries: Seq<PluginEntry>) -> Map<Seq<char>, StatusModel>
    decreases entries.len(),
{
    if entries.len() == 0 {
        Map::empty()
    } else {
        table(entries.drop_last()).insert(entries.last().name@, entries.last().status@)
    }
}

/// Sorted by name, each name once.
spec fn sorted(entries: Seq<PluginEntry>) -> bool {
    text::strictly_sorted(text::names_of(entries))
}

impl View for State {
    type V = Map<Seq<char>, StatusModel>;

    closed spec fn view(&self) -> Map<Seq<char>, StatusModel> {
        table(self.entries@)
    }
}

proof fn lemma_sorted_take(entries: Seq<PluginEntry>, i: int)
    requires
        sorted(entries),
        0 <= i <= entries.len(),
    ensures
        sorted(entries.take(i)),
{
    let names = text::names_of(entries);
    let prefix = text::names_of(entries.take(i));
    assert forall|a: int, b: int| 0 <= a < b < prefix.len() implies #[trigger] text::name_lt(
        prefix[a],
        prefix[b],
    ) by {
        assert(text::name_lt(names[a], names[b]));
    }
}

proof fn lemma_sorted_prefix(entries: Seq<PluginEntry>)
    requires
        sorted(entries),
        entries.len() > 0,
    ensures
        sorted(entries.drop_last()),
{
    lemma_sorted_take(entries, entries.len() - 1);
    assert(entries.take(entries.len() - 1) =~= entries.drop_last());
}

proof fn lemma_names_differ(entries: Seq<PluginEntry>, i: int, j: int)
    requires
        sorted(entries),
        0 <= i < entries.len(),
        0 <= j < entries.len(),
        i != j,
    ensures
        entries[i].name@ != entries[j].name@,
{
    let names = text::names_of(entries);
    text::lemma_name_lt_irreflexive(entries[i].name@);
    if i < j {
        assert(text::name_lt(names[i], names[j]));
    } else {
        assert(text::name_lt(names[j], names[i]));
    }
}

/// What the table says of each entry.
proof fn lemma_table_at(entries: Seq<PluginEntry>, i: int)
    requires
        sorted(entries),
        0 <= i < entries.len(),
    ensures
        table(entries).contains_key(entries[i].name@),
        table(entries)[entries[i].name@] == entries[i].status@,
    decreases entries.len(),
{
    if i < entries.len() - 1 {
        lemma_sorted_prefix(entries);
        lemma_table_at(entries.drop_last(), i);
        lemma_names_differ(entries, i, entries.len() - 1);
    }
}

/// Every name in the table is that of an entry.
proof fn lemma_table_from(entries: Seq<PluginEntry>, name: Seq<char>) -> (i: int)
    requires
        table(entries).contains_key(name),
    ensures
        0 <= i < entries.len(),
        entries[i].name@ == name,
    decreases entries.len(),
{
    if entries.last().name@ == name {
        entries.len() - 1
    } else {
        lemma_table_from(entries.drop_last(), name)
    }
}

/// Two tables are the same if they have the same entries.
proof fn lemma_table_is(entries: Seq<PluginEntry>, m: Map<Seq<char>, StatusModel>)
    requires
        sorted(entries),
        forall|i: int|
            0 <= i < entries.len() ==> m.contains_key((#[trigger] entries[i]).name@)
                && m[entries[i].name@] == entries[i].status@,
        forall|name: Seq<char>| #[trigger]
            m.contains_key(name) ==> text::names_of(entries).contains(name),
    ensures
        table(entries) == m,
{
    assert forall|name: Seq<char>| #[trigger] table(entries).contains_key(name)
        <==> m.contains_key(name) by {
        if table(entries).contains_key(name) {
            let i = lemma_table_from(entries, name);
        }
        if m.contains_key(name) {
            let names = text::names_of(entries);
            let i = choose|i: int| 0 <= i < names.len() && names[i] == name;
            lemma_table_at(entries, i);
        }
    }
    assert forall|name: Seq<char>| #[trigger] table(entries).contains_key(name) implies table(
        entries,
    )[name] == m[name] by {
        let i = lemma_table_from(entries, name);
        lemma_table_at(entries, i);
    }
    assert(table(entries) =~= m);
}

proof fn lemma_table_replaced(entries: Seq<PluginEntry>, at: int, entry: PluginEntry)
    requires
        sorted(entries),
        0 <= at < entries.len(),
        entries[at].name@ == entry.name@,
    ensures
        sorted(entries.update(at, entry)),
        table(entries.update(at, entry)) == table(entries).insert(entry.name@, entry.status@),
{
    let changed = entries.update(at, entry);
    let m = table(entries).insert(entry.name@, entry.status@);
    assert(text::names_of(changed) =~= text::names_of(entries));
    assert forall|i: int| 0 <= i < changed.len() implies m.contains_key(
        (#[trigger] changed[i]).name@,
    ) && m[changed[i].name@] == changed[i].status@ by {
        if i != at {
            lemma_table_at(entries, i);
            lemma_names_differ(entries, i, at);
        }
    }
    assert forall|name: Seq<char>| #[trigger] m.contains_key(name) implies text::names_of(
        changed,
    ).contains(name) by {
        let names = text::names_of(changed);
        if name == entry.name@ {
            assert(names[at] == name);
        } else {
            let i = lemma_table_from(entries, name);
            assert(names[i] == name);
        }
    }
    lemma_table_is(changed, m);
}

proof fn lemma_table_inserted(entries: Seq<PluginEntry>, at: int, entry: PluginEntry)
    requires
        sorted(entries),
        0 <= at <= entries.len(),
        forall|i: int| 0 <= i < at ==> text::name_lt(#[trigger] entries[i].called(), entry.name@),
        forall|i: int|
            at <= i < entries.len() ==> text::name_lt(entry.name@, #[trigger] entries[i].called()),
    ensures
        sorted(entries.insert(at, entry)),
        table(entries.insert(at, entry)) == table(entries).insert(entry.name@, entry.status@),
{
    let changed = entries.insert(at, entry);
    let m = table(entries).insert(entry.name@, entry.status@);
    let before = text::names_of(entries);
    let names = text::names_of(changed);
    assert(names =~= before.insert(at, entry.name@));
    assert forall|i: int, j: int| 0 <= i < j < names.len() implies #[trigger] text::name_lt(
        names[i],
        names[j],
    ) by {
        let a = if i < at { i } else { i - 1 };
        let b = if j < at { j } else { j - 1 };
        if i == at {
            assert(text::name_lt(entry.name@, entries[b].called()));
        } else if j == at {
            assert(text::name_lt(entries[a].called(), entry.name@));
        } else {
            assert(text::name_lt(before[a], before[b]));
        }
    }
    assert forall|i: int| 0 <= i < changed.len() implies m.contains_key(
        (#[trigger] changed[i]).name@,
    ) && m[changed[i].name@] == changed[i].status@ by {
        if i != at {
            let a = if i < at { i } else { i - 1 };
            assert(changed[i] == entries[a]);
            lemma_table_at(entries, a);
            lemma_names_differ(changed, i, at);
        }
    }
    assert forall|name: Seq<char>| #[trigger] m.contains_key(name) implies names.contains(name) by {
        if name == entry.name@ {
            assert(names[at] == name);
        } else {
            let i = lemma_table_from(entries, name);
            let j = if i < at { i } else { i + 1 };
            assert(names[j] == name);
        }
    }
    lemma_table_is(changed, m);
}

proof fn lemma_table_removed(entries: Seq<PluginEntry>, at: int)
    requires
        sorted(entries),
        0 <= at < entries.len(),
    ensures
        sorted(entries.remove(at)),
        table(entries.remove(at)) == table(entries).remove(entries[at].name@),
{
    let changed = entries.remove(at);
    let m = table(entries).remove(entries[at].name@);
    let before = text::names_of(entries);
    let names = text::names_of(changed);
    assert(names =~= before.remove(at));
    assert forall|i: int, j: int| 0 <= i < j < names.len() implies #[trigger] text::name_lt(
        names[i],
        names[j],
    ) by {
        let a = if i < at { i } else { i + 1 };
        let b = if j < at { j } else { j + 1 };
        assert(text::name_lt(before[a], before[b]));
    }
    assert forall|i: int| 0 <= i < changed.len() implies m.contains_key(
        (#[trigger] changed[i]).name@,
    ) && m[changed[i].name@] == changed[i].status@ by {
        let a = if i < at { i } else { i + 1 };
        assert(changed[i] == entries[a]);
        lemma_table_at(entries, a);
        lemma_names_differ(entries, a, at);
    }
    assert forall|name: Seq<char>| #[trigger] m.contains_key(name) implies names.contains(name) by {
        let i = lemma_table_from(entries, name);
        let j = if i < at { i } else { i - 1 };
        assert(names[j] == name);
    }
    lemma_table_is(changed, m);
}

proof fn lemma_table_absent(entries: Seq<PluginEntry>, at: int, name: Seq<char>)
    requires
        0 <= at <= entries.len(),
        forall|i: int| 0 <= i < at ==> text::name_lt(#[trigger] entries[i].called(), name),
        forall|i: int|
            at <= i < entries.len() ==> text::name_lt(name, #[trigger] entries[i].called()),
    ensures
        !table(entries).contains_key(name),
{
    if table(entries).contains_key(name) {
        let i = lemma_table_from(entries, name);
        assert(entries[i].called() == name);
        text::lemma_name_lt_irreflexive(name);
    }
}

/// How many plugins of the table have a status of the kind that `is` picks.
pub open spec fn count(
    m: Map<Seq<char>, StatusModel>,
    is: spec_fn(StatusModel) -> bool,
) -> nat {
    m.dom().filter(|name: Seq<char>| is(m[name])).len()
}

/// The names of the table, in their order.
pub open spec fn listing(m: Map<Seq<char>, StatusModel>) -> Seq<Seq<char>> {
    choose|names: Seq<Seq<char>>| text::lists_in_order(names, m.dom())
}

/// How long a plugin of this status took to load.
pub open spec fn time_taken(status: StatusModel) -> nat {
    match status {
        StatusModel::Loaded { load_time } => load_time,
        _ => 0,
    }
}

/// How long the named plugins took to load, those that have loaded.
pub open spec fn time_of(names: Seq<Seq<char>>, m: Map<Seq<char>, StatusModel>) -> nat
    decreases names.len(),
{
    if names.len() == 0 {
        0
    } else {
        time_of(names.drop_last(), m) + time_taken(m[names.last()])
    }
}

/// How long the plugins of the table that have loaded took to load.
pub open spec fn total_time(m: Map<Seq<char>, StatusModel>) -> nat {
    time_of(listing(m), m)
}

/// A new status for a plugin that is tracked; nothing for one that is not.
pub open spec fn with_status(
    m: Map<Seq<char>, StatusModel>,
    name: Seq<char>,
    status: StatusModel,
) -> Map<Seq<char>, StatusModel> {
    if m.contains_key(name) {
        m.insert(name, status)
    } else {
        m
    }
}

/// The entries list the table.
proof fn lemma_entries_list(entries: Seq<PluginEntry>)
    requires
        sorted(entries),
    ensures
        text::lists_in_order(text::names_of(entries), table(entries).dom()),
        listing(table(entries)) == text::names_of(entries),
{
    let names = text::names_of(entries);
    let m = table(entries);
    assert forall|name: Seq<char>| #[trigger] names.contains(name) <==> m.dom().contains(name) by {
        if names.contains(name) {
            let i = choose|i: int| 0 <= i < names.len() && names[i] == name;
            lemma_table_at(entries, i);
        }
        if m.contains_key(name) {
            let i = lemma_table_from(entries, name);
            assert(names[i] == name);
        }
    }
    assert(text::lists_in_order(names, m.dom()));
    text::law_listing_is_unique(listing(m), names, m.dom());
}

/// There are as many plugins in the table as entries.
proof fn lemma_table_len(entries: Seq<PluginEntry>)
    requires
        sorted(entries),
    ensures
        table(entries).dom().finite(),
        table(entries).len() == entries.len(),
    decreases entries.len(),
{
    if entries.len() > 0 {
        let rest = entries.drop_last();
        let last = entries.len() - 1;
        lemma_sorted_prefix(entries);
        lemma_table_len(rest);
        if table(rest).contains_key(entries[last].name@) {
            let i = lemma_table_from(rest, entries[last].name@);
            lemma_names_differ(entries, i, last);
        }
    }
}

/// An entry more is one more to count, or none.
proof fn lemma_count_step(entries: Seq<PluginEntry>, is: spec_fn(StatusModel) -> bool)
    requires
        sorted(entries),
        entries.len() > 0,
    ensures
        count(table(entries), is) == count(table(entries.drop_last()), is) + if is(
            entries.last().status@,
        ) {
            1nat
        } else {
            0
        },
{
    let rest = entries.drop_last();
    let last = entries.len() - 1;
    let name = entries[last].name@;
    lemma_sorted_prefix(entries);
    lemma_table_len(rest);
    if table(rest).contains_key(name) {
        let i = lemma_table_from(rest, name);
        lemma_names_differ(entries, i, last);
    }
    let (m, n) = (table(rest), table(entries));
    let a = m.dom().filter(|k: Seq<char>| is(m[k]));
    let b = n.dom().filter(|k: Seq<char>| is(n[k]));
    vstd::set_lib::lemma_len_subset(a, m.dom());
    if is(entries[last].status@) {
        assert(b =~= a.insert(name));
    } else {
        assert(b =~= a);
    }
}

/// A part of the loaded plugins took no longer than all of them.
proof fn lemma_time_prefix(names: Seq<Seq<char>>, m: Map<Seq<char>, StatusModel>, i: int)
    requires
        0 <= i <= names.len(),
    ensures
        time_of(names.take(i), m) <= time_of(names, m),
    decreases names.len(),
{
    if i == names.len() {
        assert(names.take(i) =~= names);
    } else {
        assert(names.drop_last().take(i) =~= names.take(i));
        lemma_time_prefix(names.drop_last(), m, i);
    }
}

impl Default for State {
    /// Nothing is tracked.
    fn default() -> (state: Self)
        ensures
            state@ == Map::<Seq<char>, StatusModel>::empty(),
    {
        State { entries: Vec::new() }
    }
}

impl State {
    #[verifier::type_invariant]
    spec fn is_sorted(self) -> bool {
        sorted(self.entries@)
    }

    /// Register a plugin as pending.
    pub fn register(&mut self, name: &str)
        ensures
            final(self)@ == old(self)@.insert(name@, StatusModel::Pending),
    {
        proof {
            use_type_invariant(&*self);
        }
        let mut entries: Vec<PluginEntry> = Vec::new();
        std::mem::swap(&mut entries, &mut self.entries);
        let entry = PluginEntry { name: name.to_owned(), status: PluginStatus::Pending };
        match text::position_of(&entries, name) {
            Ok(at) => {
                proof {
                    lemma_table_replaced(entries@, at as int, entry);
                }
                entries.set(at, entry);
            },
            Err(at) => {
                proof {
                    lemma_table_inserted(entries@, at as int, entry);
                }
                entries.insert(at, entry);
            },
        }
        self.entries = entries;
    }

    /// Gives a plugin a new status, if it is tracked.
    fn set_status(&mut self, name: &str, status: PluginStatus)
        ensures
            final(self)@ == with_status(old(self)@, name@, status@),
    {
        proof {
            use_type_invariant(&*self);
        }
        match text::position_of(&self.entries, name) {
            Ok(at) => {
                let mut entries: Vec<PluginEntry> = Vec::new();
                std::mem::swap(&mut entries, &mut self.entries);
                let entry = PluginEntry { name: entries[at].name.clone(), status };
                proof {
                    lemma_table_at(entries@, at as int);
                    lemma_table_replaced(entries@, at as int, entry);
                }
                entries.set(at, entry);
                self.entries = entries;
            },
            Err(at) => {
                proof {
                    lemma_table_absent(self.entries@, at as int, name@);
                }
            },
        }
    }

    /// Mark a plugin as loaded with the given load time.
    pub fn mark_loaded(&mut self, name: &str, load_time: LoadTime)
        ensures
            final(self)@ == with_status(
                old(self)@,
                name@,
                StatusModel::Loaded { load_time: load_time@ },
            ),
            old(self)@.contains_key(name@) ==> final(self)@ == old(self)@.insert(
                name@,
                StatusModel::Loaded { load_time: load_time@ },
            ),
            !old(self)@.contains_key(name@) ==> final(self)@ == old(self)@,
    {
        self.set_status(name, PluginStatus::Loaded { load_time });
    }

    /// Mark a plugin as errored.
    pub fn mark_errored(&mut self, name: &str, message: &str)
        ensures
            final(self)@ == with_status(
                old(self)@,
                name@,
                StatusModel::Errored { message: message@ },
            ),
            old(self)@.contains_key(name@) ==> final(self)@ == old(self)@.insert(
                name@,
                StatusModel::Errored { message: message@ },
            ),
            !old(self)@.contains_key(name@) ==> final(self)@ == old(self)@,
    {
        self.set_status(name, PluginStatus::Errored { message: message.to_owned() });
    }

    /// Reset a plugin back to pending (used before reload).
    pub fn reset(&mut self, name: &str)
        ensures
            final(self)@ == with_status(old(self)@, name@, StatusModel::Pending),
            old(self)@.contains_key(name@) ==> final(self)@ == old(self)@.insert(
                name@,
                StatusModel::Pending,
            ),
            !old(self)@.contains_key(name@) ==> final(self)@ == old(self)@,
    {
        self.set_status(name, PluginStatus::Pending);
    }

    /// Remove a plugin from tracking entirely.
    pub fn remove(&mut self, name: &str)
        ensures
            final(self)@ == old(self)@.remove(name@),
    {
        proof {
            use_type_invariant(&*self);
        }
        match text::position_of(&self.entries, name) {
            Ok(at) => {
                let mut entries: Vec<PluginEntry> = Vec::new();
                std::mem::swap(&mut entries, &mut self.entries);
                proof {
                    lemma_table_removed(entries@, at as int);
                }
                entries.remove(at);
                self.entries = entries;
            },
            Err(at) => {
                proof {
                    lemma_table_absent(self.entries@, at as int, name@);
                    assert(self@.remove(name@) =~= self@);
                }
            },
        }
    }

    /// Get the status of a specific plugin.
    #[must_use]
    pub fn get(&self, name: &str) -> (entry: Option<&PluginEntry>)
        ensures
            match entry {
                Some(entry) => self@.contains_key(name@) && entry.name@ == name@ && entry.status@
                    == self@[name@],
                None => !self@.contains_key(name@),
            },
    {
        proof {
            use_type_invariant(self);
        }
        match text::position_of(&self.entries, name) {
            Ok(at) => {
                proof {
                    lemma_table_at(self.entries@, at as int);
                }
                Some(&self.entries[at])
            },
            Err(at) => {
                proof {
                    lemma_table_absent(self.entries@, at as int, name@);
                }
                None
            },
        }
    }

    /// Get all entries, sorted by name.
    #[must_use]
    pub fn all_sorted(&self) -> (all: Vec<&PluginEntry>)
        ensures
            text::lists_in_order(all@.map_values(|e: &PluginEntry| e.name@), self@.dom()),
            forall|i: int|
                0 <= i < all.len() ==> (#[trigger] all[i]).status@ == self@[all[i].name@],
    {
        proof {
            use_type_invariant(self);
        }
        let mut all: Vec<&PluginEntry> = Vec::new();
        let mut i: usize = 0;
        while i < self.entries.len()
            invariant
                i <= self.entries.len(),
                all.len() == i,
                forall|j: int| 0 <= j < i ==> *(#[trigger] all[j]) == self.entries[j],
            decreases self.entries.len() - i,
        {
            all.push(&self.entries[i]);
            i += 1;
        }
        proof {
            lemma_entries_list(self.entries@);
            assert(all@.map_values(|e: &PluginEntry| e.name@) =~= text::names_of(self.entries@));
            assert forall|j: int| 0 <= j < all.len() implies (#[trigger] all[j]).status@
                == self@[all[j].name@] by {
                lemma_table_at(self.entries@, j);
            }
        }
        all
    }

    /// Count plugins by status category.
    #[must_use]
    pub fn counts(&self) -> (counts: StatusCounts)
        ensures
            counts.pending == count(self@, |s: StatusModel| s is Pending),
            counts.loaded == count(self@, |s: StatusModel| s is Loaded),
            counts.errored == count(self@, |s: StatusModel| s is Errored),
            counts.pending + counts.loaded + counts.errored == self@.len(),
    {
        proof {
            use_type_invariant(self);
        }
        let ghost pending = |s: StatusModel| s is Pending;
        let ghost loaded = |s: StatusModel| s is Loaded;
        let ghost errored = |s: StatusModel| s is Errored;
        let mut counts = StatusCounts { loaded: 0, pending: 0, errored: 0 };
        let ghost none = table(self.entries@.take(0));
        proof {
            assert(none.dom().filter(|k: Seq<char>| pending(none[k])) =~= Set::empty());
            assert(none.dom().filter(|k: Seq<char>| loaded(none[k])) =~= Set::empty());
            assert(none.dom().filter(|k: Seq<char>| errored(none[k])) =~= Set::empty());
        }
        let mut i: usize = 0;
        while i < self.entries.len()
            invariant
                i <= self.entries.len(),
                sorted(self.entries@),
                pending == |s: StatusModel| s is Pending,
                loaded == |s: StatusModel| s is Loaded,
                errored == |s: StatusModel| s is Errored,
                counts.pending == count(table(self.entries@.take(i as int)), pending),
                counts.loaded == count(table(self.entries@.take(i as int)), loaded),
                counts.errored == count(table(self.entries@.take(i as int)), errored),
                counts.pending + counts.loaded + counts.errored == i,
            decreases self.entries.len() - i,
        {
            proof {
                let next = self.entries@.take(i + 1);
                lemma_sorted_take(self.entries@, i + 1);
                assert(next.drop_last() =~= self.entries@.take(i as int));
                lemma_count_step(next, pending);
                lemma_count_step(next, loaded);
                lemma_count_step(next, errored);
            }
            match &self.entries[i].status {
                PluginStatus::Pending => {
                    counts.pending += 1;
                },
                PluginStatus::Loaded { .. } => {
                    counts.loaded += 1;
                },
                PluginStatus::Errored { .. } => {
                    counts.errored += 1;
                },
            }
            i += 1;
        }
        proof {
            assert(self.entries@.take(i as int) =~= self.entries@);
            lemma_table_len(self.entries@);
        }
        counts
    }

    /// Total number of tracked plugins.
    #[must_use]
    pub fn len(&self) -> (len: usize)
        ensures
            self@.dom().finite(),
            len == self@.len(),
    {
        proof {
            use_type_invariant(self);
            lemma_table_len(self.entries@);
        }
        self.entries.len()
    }

    /// Whether no plugins are tracked.
    #[must_use]
    pub fn is_empty(&self) -> (empty: bool)
        ensures
            empty == (self@ == Map::<Seq<char>, StatusModel>::empty()),
    {
        proof {
            use_type_invariant(self);
            if self.entries.len() > 0 {
                lemma_table_at(self.entries@, 0);
            }
        }
        self.entries.is_empty()
    }

    /// Total load time across all successfully loaded plugins, or `None` if no
    /// [`LoadTime`] can hold it.
    #[must_use]
    pub fn checked_total_load_time(&self) -> (total: Option<LoadTime>)
        ensures
            match total {
                Some(total) => total@ == total_time(self@) && total@ < load_time::limit(),
                None => total_time(self@) >= load_time::limit(),
            },
    {
        proof {
            use_type_invariant(self);
            lemma_entries_list(self.entries@);
        }
        let ghost names = text::names_of(self.entries@);
        let mut total = LoadTime::new(0, 0);
        let mut i: usize = 0;
        while i < self.entries.len()
            invariant
                i <= self.entries.len(),
                sorted(self.entries@),
                names == text::names_of(self.entries@),
                names == listing(self@),
                total@ == time_of(names.take(i as int), self@),
                total@ < load_time::limit(),
            decreases self.entries.len() - i,
        {
            proof {
                assert(names.take(i + 1).drop_last() =~= names.take(i as int));
                lemma_time_prefix(names, self@, i + 1);
                lemma_table_at(self.entries@, i as int);
            }
            if let PluginStatus::Loaded { load_time } = &self.entries[i].status {
                total = match total.checked_plus(*load_time) {
                    Some(total) => total,
                    None => {
                        return None;
                    },
                };
            }
            i += 1;
        }
        assert(names.take(i as int) =~= names);
        Some(total)
    }

    /// Total load time across all successfully loaded plugins. It has to be one that a
    /// [`LoadTime`] can hold.
    #[must_use]
    pub fn total_load_time(&self) -> (total: LoadTime)
        requires
            total_time(self@) < load_time::limit(),
        ensures
            total@ == total_time(self@),
    {
        self.checked_total_load_time().unwrap()
    }
}

/// Summary counts by status.
#[derive(Debug, Default, Clone, Copy, PartialEq, Eq)]
pub struct StatusCounts {
    pub loaded: usize,
    pub pending: usize,
    pub errored: usize,
}

/// The system's monotonic clock. Its readings are only good for measuring spans.
#[verifier::external_type_specification]
#[verifier::external_body]
pub struct ExInstant(std::time::Instant);

/// `std::time::Instant::now`: what the clock says. Nothing is claimed of it.
pub assume_specification[ std::time::Instant::now ]() -> std::time::Instant
;

/// `std::time::Instant::elapsed`: the span since `start`, in whole seconds and the
/// nanoseconds beyond them. Claimed of it: the latter do not make up a second. How
/// long the span is depends on when the call is made, and is left open.
#[verifier::external_body]
fn elapsed_since(start: &std::time::Instant) -> (span: (u64, u32))
    ensures
        span.1 < load_time::NANOS_PER_SEC,
{
    let span = start.elapsed();
    (span.as_secs(), span.subsec_nanos())
}

/// Measures the duration of a closure, returning both the result and elapsed
/// time. Used by the loader to time plugin loads.
pub fn timed<F, T>(f: F) -> (timed: (T, LoadTime)) where F: FnOnce() -> T
    requires
        call_requires(f, ()),
    ensures
        call_ensures(f, (), timed.0),
{
    let start = std::time::Instant::now();
    let result = f();
    let (secs, nanos): (u64, u32) = elapsed_since(&start);
    (result, LoadTime::new(secs, nanos))
}

/// A plugin that is not tracked cannot be marked.
pub proof fn law_marking_unknown_is_noop(
    m: Map<Seq<char>, StatusModel>,
    name: Seq<char>,
    status: StatusModel,
)
    requires
        !m.contains_key(name),
    ensures
        with_status(m, name, status) == m,
        m.remove(name) == m,
{
    assert(m.remove(name) =~= m);
}

/// Marking a plugin tracks nothing new, forgets nothing, and leaves all others alone.
pub proof fn law_marking_leaves_others_alone(
    m: Map<Seq<char>, StatusModel>,
    name: Seq<char>,
    status: StatusModel,
    other: Seq<char>,
)
    requires
        other != name,
    ensures
        with_status(m, name, status).dom() == m.dom(),
        with_status(m, name, status)[other] == m[other],
{
    assert(with_status(m, name, status).dom() =~= m.dom());
}

/// Of two marks the later one counts.
pub proof fn law_later_mark_counts(
    m: Map<Seq<char>, StatusModel>,
    name: Seq<char>,
    first: StatusModel,
    second: StatusModel,
)
    ensures
        with_status(with_status(m, name, first), name, second) == with_status(m, name, second),
{
    assert(with_status(with_status(m, name, first), name, second) =~= with_status(m, name, second));
}

/// To reset a plugin undoes whatever mark a pending plugin got.
pub proof fn law_reset_undoes_marks(
    m: Map<Seq<char>, StatusModel>,
    name: Seq<char>,
    status: StatusModel,
)
    requires
        m.contains_key(name) ==> m[name] == StatusModel::Pending,
    ensures
        with_status(with_status(m, name, status), name, StatusModel::Pending) == m,
{
    assert(with_status(with_status(m, name, status), name, StatusModel::Pending) =~= m);
}

/// To remove a plugin undoes its registration.
pub proof fn law_remove_undoes_register(m: Map<Seq<char>, StatusModel>, name: Seq<char>)
    requires
        !m.contains_key(name),
    ensures
        m.insert(name, StatusModel::Pending).remove(name) == m,
{
    assert(m.insert(name, StatusModel::Pending).remove(name) =~= m);
}

/// Without the plugin at `p`, the time is less by what that one took.
proof fn lemma_time_without(names: Seq<Seq<char>>, m: Map<Seq<char>, StatusModel>, p: int)
    requires
        0 <= p < names.len(),
    ensures
        time_of(names, m) == time_of(names.remove(p), m) + time_taken(m[names[p]]),
    decreases names.len(),
{
    let rest = names.drop_last();
    if p == names.len() - 1 {
        assert(names.remove(p) =~= rest);
    } else {
        lemma_time_without(rest, m, p);
        assert(names.remove(p).drop_last() =~= rest.remove(p));
    }
}

/// What happens to others does not change how long the named plugins took.
proof fn lemma_time_same(
    names: Seq<Seq<char>>,
    m: Map<Seq<char>, StatusModel>,
    n: Map<Seq<char>, StatusModel>,
)
    requires
        forall|i: int| 0 <= i < names.len() ==> m[#[trigger] names[i]] == n[names[i]],
    ensures
        time_of(names, m) == time_of(names, n),
    decreases names.len(),
{
    if names.len() > 0 {
        let rest = names.drop_last();
        assert forall|i: int| 0 <= i < rest.len() implies m[#[trigger] rest[i]] == n[rest[i]] by {
            assert(rest[i] == names[i]);
        }
        assert(m[names[names.len() - 1]] == n[names[names.len() - 1]]);
        lemma_time_same(rest, m, n);
    }
}

/// With one more plugin, the total load time is more by what that one took. So a
/// plugin that is pending or errored does not contribute.
pub proof fn law_total_adds_up(
    m: Map<Seq<char>, StatusModel>,
    name: Seq<char>,
    status: StatusModel,
)
    requires
        m.dom().finite(),
        !m.contains_key(name),
    ensures
        total_time(Map::<Seq<char>, StatusModel>::empty()) == 0,
        total_time(m.insert(name, status)) == total_time(m) + time_taken(status),
{
    let none = Map::<Seq<char>, StatusModel>::empty();
    let nobody = Seq::<Seq<char>>::empty();
    assert(text::lists_in_order(nobody, none.dom()));
    text::law_listing_is_unique(listing(none), nobody, none.dom());
    let n = m.insert(name, status);
    let names = text::lemma_listing_exists(n.dom());
    assert(text::lists_in_order(names, n.dom()));
    text::law_listing_is_unique(listing(n), names, n.dom());
    assert(names.contains(name));
    let p = choose|p: int| 0 <= p < names.len() && names[p] == name;
    let others = names.remove(p);
    lemma_time_without(names, n, p);
    text::lemma_listing_without(names, n.dom(), p);
    assert(n.dom().remove(name) =~= m.dom());
    assert(text::lists_in_order(others, m.dom()));
    text::law_listing_is_unique(listing(m), others, m.dom());
    assert forall|i: int| 0 <= i < others.len() implies n[#[trigger] others[i]] == m[others[i]] by {
        assert(others.contains(others[i]));
    }
    lemma_time_same(others, n, m);
}

/// Marking a plugin that is tracked gives it the very status, whatever that is.
pub proof fn law_mark_is_the_status(
    m: Map<Seq<char>, StatusModel>,
    name: Seq<char>,
    status: StatusModel,
)
    requires
        m.contains_key(name),
    ensures
        with_status(m, name, status).contains_key(name),
        with_status(m, name, status)[name] == status,
        with_status(m, name, status).remove(name) == m.remove(name),
{
    assert(with_status(m, name, status).remove(name) =~= m.remove(name));
}

/// The model of a status holds all that the status says.
pub proof fn law_status_models(load_time: LoadTime, message: String)
    ensures
        PluginStatus::Pending@ == StatusModel::Pending,
        (PluginStatus::Loaded { load_time })@ == (StatusModel::Loaded { load_time: load_time@ }),
        (PluginStatus::Errored { message })@ == (StatusModel::Errored { message: message@ }),
{
}

/// How each status reads.
pub proof fn law_status_in_words(load_time: nat, message: Seq<char>)
    ensures
        StatusModel::Pending.words() == "pending"@,
        (StatusModel::Loaded { load_time }).words() == "loaded ("@ + load_time::words(load_time)
            + ")"@,
        (StatusModel::Errored { message }).words() == "error: "@ + message,
{
}

/// In an empty table there is nothing to count. One more plugin counts by one if its
/// status is picked, and not otherwise.
pub proof fn law_counting(
    m: Map<Seq<char>, StatusModel>,
    name: Seq<char>,
    status: StatusModel,
    picks: spec_fn(StatusModel) -> bool,
)
    requires
        m.dom().finite(),
        !m.contains_key(name),
    ensures
        count(Map::empty(), picks) == 0,
        picks(status) ==> count(m.insert(name, status), picks) == count(m, picks) + 1,
        !picks(status) ==> count(m.insert(name, status), picks) == count(m, picks),
{
    let none = Map::<Seq<char>, StatusModel>::empty();
    assert(none.dom().filter(|k: Seq<char>| picks(none[k])) =~= Set::empty());
    let n = m.insert(name, status);
    let a = m.dom().filter(|k: Seq<char>| picks(m[k]));
    let b = n.dom().filter(|k: Seq<char>| picks(n[k]));
    vstd::set_lib::lemma_len_subset(a, m.dom());
    if picks(status) {
        assert(b =~= a.insert(name));
    } else {
        assert(b =~= a);
    }
}

/// The names of a table are listed all, each once, in their order.
pub proof fn law_listing_of_a_table(m: Map<Seq<char>, StatusModel>)
    requires
        m.dom().finite(),
    ensures
        listing(m).no_duplicates(),
        listing(m).to_set() == m.dom(),
        forall|i: int, j: int|
            0 <= i < j < listing(m).len() ==> #[trigger] text::name_lt(listing(m)[i], listing(m)[j]),
{
    let names = text::lemma_listing_exists(m.dom());
    assert(text::lists_in_order(names, m.dom()));
    let all = listing(m);
    text::law_listing_is_sorted(all, m.dom());
    assert forall|i: int, j: int|
        0 <= i < all.len() && 0 <= j < all.len() && i != j implies all[i] != all[j] by {
        text::lemma_name_lt_irreflexive(all[i]);
        if i < j {
            assert(text::name_lt(all[i], all[j]));
        } else {
            assert(text::name_lt(all[j], all[i]));
        }
    }
}

/// A plugin that has loaded adds all the time that it took to the total; one that is
/// pending, or has failed, adds nothing.
pub proof fn law_total_of_loaded(
    m: Map<Seq<char>, StatusModel>,
    name: Seq<char>,
    load_time: nat,
    message: Seq<char>,
)
    requires
        m.dom().finite(),
        !m.contains_key(name),
    ensures
        total_time(Map::empty()) == 0,
        total_time(m.insert(name, StatusModel::Loaded { load_time })) == total_time(m) + load_time,
        total_time(m.insert(name, StatusModel::Pending)) == total_time(m),
        total_time(m.insert(name, StatusModel::Errored { message })) == total_time(m),
{
    law_total_adds_up(m, name, StatusModel::Loaded { load_time });
    law_total_adds_up(m, name, StatusModel::Pending);
    law_total_adds_up(m, name, StatusModel::Errored { message });
}

} // verus!
