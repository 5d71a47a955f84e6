//! Plugin discovery: which files of a directory are plugins, and what they are
//! called.

use vstd::prelude::*;

use crate::loader::LoadError;
use crate::text;

verus! {

/// An entry of a directory.
#[derive(Debug, Clone)]
pub struct DirEntry {
    /// The name of the entry, unless it is no valid Unicode.
    pub file_name: Option<String>,
    /// The path of the entry, as text.
    pub path: String,
    /// Whether the entry is a file.
    pub is_file: bool,
}

/// What looking into a directory gave.
#[derive(Debug, Clone)]
pub enum Listing {
    /// There is no such directory.
    NotADirectory,
    /// The directory cannot be read, for the reason given.
    Unreadable(String),
    /// The entries, in the order in which they were read. Reading one may fail, for
    /// the reason given.
    Entries(Vec<Result<DirEntry, String>>),
}

/// Where the last dot stands, or -1.
pub open spec fn last_dot(name: Seq<char>) -> int
    decreases name.len(),
{
    if name.len() == 0 {
        -1
    } else if name.last() == '.' {
        name.len() - 1
    } else {
        last_dot(name.drop_last())
    }
}

/// The extensions of dynamic libraries.
pub open spec fn is_library_extension(extension: Seq<char>) -> bool {
    extension == "so"@ || extension == "dylib"@ || extension == "dll"@
}

/// The text without the prefix `lib`, if it has it.
pub open spec fn without_lib(stem: Seq<char>) -> Seq<char> {
    if stem.len() >= 3 && stem.take(3) == "lib"@ {
        stem.skip(3)
    } else {
        stem
    }
}

/// The name of the plugin in a file: the file name must end in the extension of a
/// dynamic library, and the plugin is called by what stands before it, without the
/// prefix `lib`. What follows a dot at the very beginning is no extension.
pub open spec fn plugin_in(file_name: Seq<char>) -> Option<Seq<char>> {
    let dot = last_dot(file_name);
    if dot > 0 && is_library_extension(file_name.skip(dot + 1)) {
        Some(without_lib(file_name.take(dot)))
    } else {
        None
    }
}

/// A plugin that was found: its name, and the path of its file.
pub type Found = (Seq<char>, Seq<char>);

/// The plugin that a directory entry holds.
pub open spec fn plugin_at(entry: Result<DirEntry, String>) -> Option<Found> {
    match entry {
        Ok(DirEntry { file_name: Some(file_name), path, is_file: true }) => match plugin_in(
            file_name@,
        ) {
            Some(name) => Some((name, path@)),
            None => None,
        },
        _ => None,
    }
}

/// The plugins that the entries hold, in the same order.
pub open spec fn plugins_among(entries: Seq<Result<DirEntry, String>>) -> Seq<Found>
    decreases entries.len(),
{
    if entries.len() == 0 {
        Seq::empty()
    } else {
        let before = plugins_among(entries.drop_last());
        match plugin_at(entries.last()) {
            Some(found) => before.push(found),
            None => before,
        }
    }
}

/// No plugin comes after one whose name comes later.
pub open spec fn in_name_order(list: Seq<Found>) -> bool {
    forall|i: int, j: int|
        0 <= i < j < list.len() ==> !text::name_lt((#[trigger] list[j]).0, (#[trigger] list[i]).0)
}

/// Picks the plugins of one name.
pub open spec fn called(name: Seq<char>) -> spec_fn(Found) -> bool {
    |found: Found| found.0 == name
}

/// `sorted` is `list` in the order of names; those with the same name keep the order
/// in which they stand in `list`.
pub open spec fn is_sorted_form(sorted: Seq<Found>, list: Seq<Found>) -> bool {
    &&& in_name_order(sorted)
    &&& forall|name: Seq<char>| #[trigger]
        sorted.filter(called(name)) == list.filter(called(name))
}

/// What pairs of strings say.
pub open spec fn found_in(pairs: Seq<(String, String)>) -> Seq<Found> {
    pairs.map_values(|pair: (String, String)| (pair.0@, pair.1@))
}

/// The first entry that could not be read, if any, has the reason `why`.
pub open spec fn first_failure(entries: Seq<Result<DirEntry, String>>, why: Seq<char>) -> bool {
    exists|k: int|
        {
            &&& 0 <= k < entries.len()
            &&& (#[trigger] entries[k]) is Err
            &&& entries[k]->Err_0@ == why
            &&& forall|j: int| 0 <= j < k ==> (#[trigger] entries[j]) is Ok
        }
}

fn position_of_last_dot(name: &str) -> (dot: Option<usize>)
    ensures
        match dot {
            Some(dot) => dot == last_dot(name@),
            None => last_dot(name@) == -1,
        },
{
    let mut end: usize = name.unicode_len();
    assert(name@.take(end as int) =~= name@);
    while end > 0
        invariant
            end <= name@.len(),
            last_dot(name@) == last_dot(name@.take(end as int)),
        decreases end,
    {
        assert(name@.take(end as int).drop_last() =~= name@.take(end - 1));
        if name.get_char(end - 1) == '.' {
            return Some(end - 1);
        }
        end -= 1;
    }
    None
}

/// The name of the plugin in a file of this name, if there is one.
pub fn plugin_name(file_name: &str) -> (name: Option<String>)
    ensures
        match name {
            Some(name) => plugin_in(file_name@) == Some(name@),
            None => plugin_in(file_name@) is None,
        },
{
    proof {
        lemma_last_dot(file_name@);
    }
    let dot: usize = match position_of_last_dot(file_name) {
        Some(dot) => dot,
        None => {
            return None;
        },
    };
    if dot == 0 {
        return None;
    }
    let len: usize = file_name.unicode_len();
    let extension = file_name.substring_char(dot + 1, len);
    assert(extension@ =~= file_name@.skip(dot + 1));
    if !(text::same_text(extension, "so") || text::same_text(extension, "dylib")
        || text::same_text(extension, "dll")) {
        return None;
    }
    let stem = file_name.substring_char(0, dot);
    assert(stem@ =~= file_name@.take(dot as int));
    if dot >= 3 {
        let prefix = stem.substring_char(0, 3);
        assert(prefix@ =~= stem@.take(3));
        if text::same_text(prefix, "lib") {
            let name = stem.substring_char(3, dot);
            assert(name@ =~= stem@.skip(3));
            return Some(name.to_owned());
        }
    }
    Some(stem.to_owned())
}

/// The last dot is a dot of the name.
pub(crate) proof fn lemma_last_dot(name: Seq<char>)
    ensures
        -1 <= last_dot(name) < name.len(),
        last_dot(name) >= 0 ==> name[last_dot(name)] == '.',
    decreases name.len(),
{
    if name.len() > 0 {
        lemma_last_dot(name.drop_last());
    }
}

/// If none is picked, the filter leaves nothing.
proof fn lemma_filter_none(list: Seq<Found>, name: Seq<char>)
    requires
        forall|i: int| 0 <= i < list.len() ==> (#[trigger] list[i]).0 != name,
    ensures
        list.filter(called(name)) == Seq::<Found>::empty(),
    decreases list.len(),
{
    reveal(Seq::filter);
    if list.len() > 0 {
        let rest = list.drop_last();
        assert forall|i: int| 0 <= i < rest.len() implies (#[trigger] rest[i]).0 != name by {
            assert(rest[i] == list[i]);
        }
        lemma_filter_none(rest, name);
        assert(list[list.len() - 1].0 != name);
    }
}

/// A plugin more, put behind all that come no later and before all that come later.
proof fn lemma_sorted_inserted(sorted: Seq<Found>, list: Seq<Found>, at: int, found: Found)
    requires
        is_sorted_form(sorted, list),
        0 <= at <= sorted.len(),
        forall|i: int| 0 <= i < at ==> !text::name_lt(found.0, (#[trigger] sorted[i]).0),
        forall|i: int| at <= i < sorted.len() ==> text::name_lt(found.0, (#[trigger] sorted[i]).0),
    ensures
        is_sorted_form(sorted.insert(at, found), list.push(found)),
{
    let longer = sorted.insert(at, found);
    assert forall|i: int, j: int| 0 <= i < j < longer.len() implies !text::name_lt(
        (#[trigger] longer[j]).0,
        (#[trigger] longer[i]).0,
    ) by {
        let a = if i < at { i } else { i - 1 };
        let b = if j < at { j } else { j - 1 };
        if i == at {
            assert(longer[j] == sorted[b]);
            if text::name_lt(sorted[b].0, found.0) {
                text::lemma_name_lt_transitive(found.0, sorted[b].0, found.0);
                text::lemma_name_lt_irreflexive(found.0);
            }
        } else if j == at {
            assert(longer[i] == sorted[a]);
        } else {
            assert(longer[i] == sorted[a] && longer[j] == sorted[b]);
        }
    }
    assert forall|name: Seq<char>| #[trigger] longer.filter(called(name)) == list.push(
        found,
    ).filter(called(name)) by {
        let pick = called(name);
        let front = sorted.take(at);
        let back = sorted.skip(at);
        let one = seq![found];
        assert(sorted =~= front + back);
        assert(longer =~= front + one + back);
        assert(list.push(found) =~= list + one);
        Seq::filter_distributes_over_add(front, back, pick);
        Seq::filter_distributes_over_add(front + one, back, pick);
        Seq::filter_distributes_over_add(front, one, pick);
        Seq::filter_distributes_over_add(list, one, pick);
        assert(sorted.filter(pick) == list.filter(pick));
        if name == found.0 {
            assert forall|i: int| 0 <= i < back.len() implies (#[trigger] back[i]).0 != name by {
                assert(back[i] == sorted[at + i]);
                text::lemma_name_lt_irreflexive(name);
            }
            lemma_filter_none(back, name);
            assert(longer.filter(pick) =~= list.push(found).filter(pick));
        } else {
            lemma_filter_none(one, name);
            assert(longer.filter(pick) =~= list.push(found).filter(pick));
        }
    }
}

/// Discover cdylib files (`.so`, `.dylib`, `.dll`) in the given directory.
/// Returns a list of `(stem, path)` pairs where stem is the file name without
/// the library prefix and extension (e.g. `libfoo.so` -> `foo`), sorted by name.
///
/// Only files at the top level of `dir` are considered (no recursion).
pub fn discover_plugins(dir: &str, listing: Listing) -> (plugins: Result<
    Vec<(String, String)>,
    LoadError,
>)
    ensures
        match listing {
            Listing::NotADirectory => plugins matches Err(LoadError::DirNotFound(path)) && path@
                == dir@,
            Listing::Unreadable(why) => plugins matches Err(LoadError::Io(reason)) && reason@
                == why@,
            Listing::Entries(entries) => match plugins {
                Ok(plugins) => {
                    &&& forall|i: int| 0 <= i < entries.len() ==> (#[trigger] entries[i]) is Ok
                    &&& is_sorted_form(found_in(plugins@), plugins_among(entries@))
                },
                Err(LoadError::Io(reason)) => first_failure(entries@, reason@),
                Err(_) => false,
            },
        },
{
    let entries: Vec<Result<DirEntry, String>> = match listing {
        Listing::NotADirectory => {
            return Err(LoadError::DirNotFound(dir.to_owned()));
        },
        Listing::Unreadable(why) => {
            return Err(LoadError::Io(why));
        },
        Listing::Entries(entries) => entries,
    };
    let mut plugins: Vec<(String, String)> = Vec::new();
    assert(found_in(plugins@) =~= Seq::empty());
    let mut i: usize = 0;
    while i < entries.len()
        invariant
            listing == Listing::Entries(entries),
            i <= entries.len(),
            forall|j: int| 0 <= j < i ==> (#[trigger] entries[j]) is Ok,
            is_sorted_form(found_in(plugins@), plugins_among(entries@.take(i as int))),
        decreases entries.len() - i,
    {
        assert(entries@.take(i + 1).drop_last() =~= entries@.take(i as int));
        match &entries[i] {
            Err(why) => {
                return Err(LoadError::Io(why.clone()));
            },
            Ok(entry) => {
                if entry.is_file {
                    if let Some(file_name) = &entry.file_name {
                        if let Some(name) = plugin_name(file_name.as_str()) {
                            insert_by_name(
                                &mut plugins,
                                name,
                                entry.path.clone(),
                                Ghost(plugins_among(entries@.take(i as int))),
                            );
                        }
                    }
                }
            },
        }
        i += 1;
    }
    assert(entries@.take(i as int) =~= entries@);
    Ok(plugins)
}

/// Puts a plugin behind all whose names come no later.
fn insert_by_name(
    plugins: &mut Vec<(String, String)>,
    name: String,
    path: String,
    Ghost(list): Ghost<Seq<Found>>,
)
    requires
        is_sorted_form(found_in(old(plugins)@), list),
    ensures
        is_sorted_form(found_in(final(plugins)@), list.push((name@, path@))),
{
    let ghost before = found_in(plugins@);
    let mut at: usize = plugins.len();
    while at > 0 && text::name_before(name.as_str(), plugins[at - 1].0.as_str())
        invariant
            at <= plugins.len(),
            before == found_in(plugins@),
            forall|i: int|
                at <= i < plugins.len() ==> text::name_lt(name@, (#[trigger] before[i]).0),
        decreases at,
    {
        assert(before[at - 1].0 == plugins[at - 1].0@);
        at -= 1;
    }
    proof {
        assert forall|i: int| 0 <= i < at implies !text::name_lt(
            name@,
            (#[trigger] before[i]).0,
        ) by {
            let last = before[at - 1].0;
            assert(last == plugins[at - 1].0@);
            if i < at - 1 && text::name_lt(name@, before[i].0) {
                text::lemma_name_lt_total(before[i].0, last);
                if text::name_lt(before[i].0, last) {
                    text::lemma_name_lt_transitive(name@, before[i].0, last);
                }
                assert(!text::name_lt(before[at - 1].0, before[i].0));
            }
        }
        lemma_sorted_inserted(before, list, at as int, (name@, path@));
    }
    let ghost pair = (name, path);
    plugins.insert(at, (name, path));
    assert(found_in(plugins@) =~= before.insert(at as int, (pair.0@, pair.1@)));
}

/// The first plugin comes first among those of its name.
proof fn lemma_filter_first(list: Seq<Found>, name: Seq<char>)
    requires
        list.len() > 0,
    ensures
        list.filter(called(name)) == (if list[0].0 == name {
            seq![list[0]]
        } else {
            Seq::empty()
        }) + list.drop_first().filter(called(name)),
{
    let pick = called(name);
    let one = seq![list[0]];
    assert(list =~= one + list.drop_first());
    Seq::filter_distributes_over_add(one, list.drop_first(), pick);
    reveal(Seq::filter);
    assert(one.drop_last() =~= Seq::empty());
    assert(Seq::<Found>::empty().filter(pick) =~= Seq::empty());
    if list[0].0 == name {
        assert(one.filter(pick) =~= one);
    } else {
        assert(one.filter(pick) =~= Seq::empty());
    }
}

/// Some plugin of `list` has the name, if the filter finds one.
proof fn lemma_filter_some(list: Seq<Found>, name: Seq<char>) -> (i: int)
    requires
        list.filter(called(name)).len() > 0,
    ensures
        0 <= i < list.len(),
        list[i].0 == name,
{
    if forall|i: int| 0 <= i < list.len() ==> (#[trigger] list[i]).0 != name {
        lemma_filter_none(list, name);
    }
    choose|i: int| 0 <= i < list.len() && (#[trigger] list[i]).0 == name
}

proof fn lemma_sorted_forms_agree(a: Seq<Found>, b: Seq<Found>)
    requires
        in_name_order(a),
        in_name_order(b),
        forall|name: Seq<char>| #[trigger] a.filter(called(name)) == b.filter(called(name)),
    ensures
        a == b,
    decreases a.len(),
{
    if a.len() == 0 {
        if b.len() > 0 {
            let m = b[0].0;
            lemma_filter_first(b, m);
            assert(a.filter(called(m)) == b.filter(called(m)));
            let i = lemma_filter_some(a, m);
        }
        assert(a =~= b);
    } else {
        let n = a[0].0;
        lemma_filter_first(a, n);
        assert(a.filter(called(n)) == b.filter(called(n)));
        let j = lemma_filter_some(b, n);
        let m = b[0].0;
        lemma_filter_first(b, m);
        assert(a.filter(called(m)) == b.filter(called(m)));
        let i = lemma_filter_some(a, m);
        if i > 0 && j > 0 {
            assert(!text::name_lt(a[i].0, a[0].0));
            assert(!text::name_lt(b[j].0, b[0].0));
            text::lemma_name_lt_total(n, m);
        }
        assert(n == m);
        assert(a.filter(called(n))[0] == a[0]);
        assert(b.filter(called(n))[0] == b[0]);
        let (c, d) = (a.drop_first(), b.drop_first());
        assert forall|name: Seq<char>| #[trigger] c.filter(called(name)) == d.filter(
            called(name),
        ) by {
            lemma_filter_first(a, name);
            lemma_filter_first(b, name);
            assert(a.filter(called(name)) == b.filter(called(name)));
            if name == n {
                assert(a.filter(called(name)).drop_first() =~= c.filter(called(name)));
                assert(b.filter(called(name)).drop_first() =~= d.filter(called(name)));
            } else {
                assert(a.filter(called(name)) =~= c.filter(called(name)));
                assert(b.filter(called(name)) =~= d.filter(called(name)));
            }
        }
        assert forall|p: int, q: int| 0 <= p < q < c.len() implies !text::name_lt(
            (#[trigger] c[q]).0,
            (#[trigger] c[p]).0,
        ) by {
            assert(!text::name_lt(a[q + 1].0, a[p + 1].0));
        }
        assert forall|p: int, q: int| 0 <= p < q < d.len() implies !text::name_lt(
            (#[trigger] d[q]).0,
            (#[trigger] d[p]).0,
        ) by {
            assert(!text::name_lt(b[q + 1].0, b[p + 1].0));
        }
        lemma_sorted_forms_agree(c, d);
        assert(a =~= seq![a[0]] + c);
        assert(b =~= seq![b[0]] + d);
    }
}

/// What is found comes in one order only.
pub proof fn law_sorted_form_is_unique(a: Seq<Found>, b: Seq<Found>, list: Seq<Found>)
    requires
        is_sorted_form(a, list),
        is_sorted_form(b, list),
    ensures
        a == b,
{
    assert forall|name: Seq<char>| #[trigger] a.filter(called(name)) == b.filter(called(name)) by {
        assert(a.filter(called(name)) == list.filter(called(name)));
        assert(b.filter(called(name)) == list.filter(called(name)));
    }
    lemma_sorted_forms_agree(a, b);
}

/// Nothing but the files of the directory is found, and every file that is a plugin
/// is found.
pub proof fn law_found_are_the_plugins(
    sorted: Seq<Found>,
    entries: Seq<Result<DirEntry, String>>,
    found: Found,
)
    requires
        is_sorted_form(sorted, plugins_among(entries)),
    ensures
        sorted.contains(found) <==> exists|i: int|
            0 <= i < entries.len() && plugin_at(#[trigger] entries[i]) == Some(found),
{
    let list = plugins_among(entries);
    let pick = called(found.0);
    lemma_among(entries, found);
    assert(sorted.filter(pick) == list.filter(pick));
    if sorted.contains(found) {
        let i = choose|i: int| 0 <= i < sorted.len() && sorted[i] == found;
        assert(pick(sorted[i]));
        sorted.lemma_filter_contains(pick, i);
        lemma_filter_within(list, pick, found);
    }
    if list.contains(found) {
        let i = choose|i: int| 0 <= i < list.len() && list[i] == found;
        assert(pick(list[i]));
        list.lemma_filter_contains(pick, i);
        lemma_filter_within(sorted, pick, found);
    }
}

proof fn lemma_filter_within(list: Seq<Found>, pick: spec_fn(Found) -> bool, found: Found)
    requires
        list.filter(pick).contains(found),
    ensures
        list.contains(found),
    decreases list.len(),
{
    reveal(Seq::filter);
    if list.len() > 0 {
        let rest = list.drop_last();
        if rest.filter(pick).contains(found) {
            lemma_filter_within(rest, pick, found);
            let i = choose|i: int| 0 <= i < rest.len() && rest[i] == found;
            assert(list[i] == found);
        } else {
            let kept = list.filter(pick);
            let i = choose|i: int| 0 <= i < kept.len() && kept[i] == found;
            if i < rest.filter(pick).len() {
                assert(rest.filter(pick)[i] == found);
            }
            assert(list[list.len() - 1] == found);
        }
    }
}

proof fn lemma_among(entries: Seq<Result<DirEntry, String>>, found: Found)
    ensures
        plugins_among(entries).contains(found) <==> exists|i: int|
            0 <= i < entries.len() && plugin_at(#[trigger] entries[i]) == Some(found),
    decreases entries.len(),
{
    if entries.len() > 0 {
        let rest = entries.drop_last();
        let last = entries.len() - 1;
        let before = plugins_among(rest);
        let all = plugins_among(entries);
        lemma_among(rest, found);
        if all.contains(found) {
            let k = choose|k: int| 0 <= k < all.len() && all[k] == found;
            if k < before.len() {
                assert(before[k] == found);
                let i = choose|i: int|
                    0 <= i < rest.len() && plugin_at(#[trigger] rest[i]) == Some(found);
                assert(plugin_at(entries[i]) == Some(found));
            } else {
                assert(plugin_at(entries[last]) == Some(found));
            }
        }
        if exists|i: int| 0 <= i < entries.len() && plugin_at(#[trigger] entries[i]) == Some(found) {
            let i = choose|i: int|
                0 <= i < entries.len() && plugin_at(#[trigger] entries[i]) == Some(found);
            if i < last {
                assert(plugin_at(rest[i]) == Some(found));
                let k = choose|k: int| 0 <= k < before.len() && before[k] == found;
                assert(all[k] == found);
            } else {
                assert(all[before.len() as int] == found);
            }
        }
    }
}

proof fn lemma_last_dot_between(front: Seq<char>, back: Seq<char>)
    requires
        !back.contains('.'),
    ensures
        last_dot(front + "."@ + back) == front.len(),
    decreases back.len(),
{
    reveal_strlit(".");
    let whole = front + "."@ + back;
    if back.len() == 0 {
        assert(whole.last() == '.');
    } else {
        let rest = back.drop_last();
        assert(whole.drop_last() =~= front + "."@ + rest);
        assert(whole.last() == back[back.len() - 1]);
        if rest.contains('.') {
            let i = choose|i: int| 0 <= i < rest.len() && rest[i] == '.';
            assert(back[i] == '.');
        }
        lemma_last_dot_between(front, rest);
    }
}

proof fn lemma_extensions_have_no_dots()
    ensures
        !"so"@.contains('.'),
        !"dylib"@.contains('.'),
        !"dll"@.contains('.'),
{
    reveal_strlit("so");
    reveal_strlit("dylib");
    reveal_strlit("dll");
}

/// Every file whose name has something before the extension of a dynamic library holds a
/// plugin. It is called by what stands there, whatever that is, but for a `lib` at the
/// beginning.
pub proof fn law_library_files_hold_plugins(stem: Seq<char>, rest: Seq<char>, extension: Seq<char>)
    requires
        extension == "so"@ || extension == "dylib"@ || extension == "dll"@,
    ensures
        plugin_in("lib"@ + rest + "."@ + extension) == Some(rest),
        stem.len() > 0 && !"lib"@.is_prefix_of(stem) ==> plugin_in(stem + "."@ + extension) == Some(
            stem,
        ),
{
    reveal_strlit(".");
    reveal_strlit("lib");
    lemma_extensions_have_no_dots();
    let prefixed = "lib"@ + rest;
    lemma_last_dot_between(prefixed, extension);
    let file = prefixed + "."@ + extension;
    assert(file.skip(prefixed.len() as int + 1) =~= extension);
    assert(file.take(prefixed.len() as int) =~= prefixed);
    assert(prefixed.take(3) =~= "lib"@);
    assert(prefixed.skip(3) =~= rest);
    lemma_last_dot_between(stem, extension);
    let plain = stem + "."@ + extension;
    assert(plain.skip(stem.len() as int + 1) =~= extension);
    assert(plain.take(stem.len() as int) =~= stem);
    if stem.len() >= 3 && stem.take(3) == "lib"@ {
        assert("lib"@.is_prefix_of(stem));
    }
}

/// A file that holds a plugin is named in this way: by the name of the plugin, with a `lib`
/// before it or without, and the extension of a dynamic library.
pub proof fn law_plugins_are_in_library_files(file: Seq<char>, name: Seq<char>) -> (parts: (
    Seq<char>,
    Seq<char>,
))
    requires
        plugin_in(file) == Some(name),
    ensures
        file == parts.0 + "."@ + parts.1,
        parts.0.len() > 0,
        parts.0 == "lib"@ + name || (parts.0 == name && !"lib"@.is_prefix_of(name)),
        parts.1 == "so"@ || parts.1 == "dylib"@ || parts.1 == "dll"@,
{
    reveal_strlit(".");
    reveal_strlit("lib");
    let dot = last_dot(file);
    lemma_last_dot(file);
    let (stem, extension) = (file.take(dot), file.skip(dot + 1));
    assert(file =~= stem + "."@ + extension);
    if stem.len() >= 3 && stem.take(3) == "lib"@ {
        assert(stem =~= "lib"@ + name);
    } else if "lib"@.is_prefix_of(stem) {
        assert(stem.take(3) =~= "lib"@);
    }
    (stem, extension)
}

/// What an entry holds: a file holds what its name tells; an entry that is no file, has no
/// valid name, or could not be read holds no plugin.
pub proof fn law_entries_hold_plugins(
    entry: DirEntry,
    file_name: String,
    path: String,
    why: String,
    name: Seq<char>,
)
    ensures
        plugin_at(Ok(DirEntry { file_name: Some(file_name), path, is_file: true })) == Some(
            (name, path@),
        ) <==> plugin_in(file_name@) == Some(name),
        plugin_at(Ok(DirEntry { file_name: Some(file_name), path, is_file: true })) is None
            <==> plugin_in(file_name@) is None,
        plugin_at(Ok(DirEntry { is_file: false, ..entry })) is None,
        plugin_at(Ok(DirEntry { file_name: None, ..entry })) is None,
        plugin_at(Err(why)) is None,
{
}

/// Plugins are found entry by entry, in the order of the entries.
pub proof fn law_plugins_entry_by_entry(
    a: Seq<Result<DirEntry, String>>,
    b: Seq<Result<DirEntry, String>>,
    entry: Result<DirEntry, String>,
    found: Found,
)
    ensures
        plugins_among(a + b) == plugins_among(a) + plugins_among(b),
        plugin_at(entry) == Some(found) ==> plugins_among(seq![entry]) == seq![found],
        plugin_at(entry) is None ==> plugins_among(seq![entry]) == Seq::<Found>::empty(),
    decreases b.len(),
{
    let none = Seq::<Result<DirEntry, String>>::empty();
    assert(seq![entry].drop_last() =~= none);
    assert(plugins_among(none) =~= Seq::<Found>::empty());
    if plugin_at(entry) == Some(found) {
        assert(plugins_among(seq![entry]) =~= seq![found]);
    }
    if b.len() == 0 {
        assert(a + b =~= a);
        assert(plugins_among(a) + plugins_among(b) =~= plugins_among(a));
    } else {
        assert((a + b).drop_last() =~= a + b.drop_last());
        law_plugins_entry_by_entry(a, b.drop_last(), entry, found);
        assert(plugins_among(a + b) =~= plugins_among(a) + plugins_among(b));
    }
}

/// What is found comes in the order of names, and those of one name come in the order in
/// which they were found, all of them and no others.
pub proof fn law_found_in_name_order(sorted: Seq<Found>, list: Seq<Found>, name: Seq<char>)
    requires
        is_sorted_form(sorted, list),
    ensures
        forall|i: int, j: int|
            0 <= i < j < sorted.len() ==> !text::name_lt(
                (#[trigger] sorted[j]).0,
                (#[trigger] sorted[i]).0,
            ),
        sorted.filter(|found: Found| found.0 == name) == list.filter(
            |found: Found| found.0 == name,
        ),
{
    assert(sorted.filter(called(name)) == list.filter(called(name)));
    assert(called(name) =~= (|found: Found| found.0 == name));
}

/// What pairs of strings say, one by one.
pub proof fn law_found_pairs(pairs: Seq<(String, String)>)
    ensures
        found_in(pairs).len() == pairs.len(),
        forall|i: int|
            0 <= i < pairs.len() ==> #[trigger] found_in(pairs)[i] == (pairs[i].0@, pairs[i].1@),
{
}

/// The failure that is reported is that of an entry before which all could be read.
pub proof fn law_first_failure(entries: Seq<Result<DirEntry, String>>, why: Seq<char>) -> (k: int)
    requires
        first_failure(entries, why),
    ensures
        0 <= k < entries.len(),
        entries[k] matches Err(reason) && reason@ == why,
        forall|j: int| 0 <= j < k ==> (#[trigger] entries[j]) is Ok,
{
    choose|k: int|
        {
            &&& 0 <= k < entries.len()
            &&& (#[trigger] entries[k]) is Err
            &&& entries[k]->Err_0@ == why
            &&& forall|j: int| 0 <= j < k ==> (#[trigger] entries[j]) is Ok
        }
}

} // verus!
