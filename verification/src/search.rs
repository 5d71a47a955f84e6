//! Where Lua looks for a plugin's file.
//!
//! Lua's `package.cpath` is a list of templates. For each of them Lua puts the name of
//! the wanted module in place of every `?`, and looks for a file of that name.

use vstd::prelude::*;

use crate::discover;
use crate::plugin;
use crate::text;

verus! {

/// The platforms that name dynamic libraries differently.
#[derive(Debug, Clone, Copy, PartialEq, Eq)]
pub enum Platform {
    MacOs,
    Windows,
    Other,
}

impl Platform {
    /// What dynamic libraries end in.
    pub open spec fn extension(self) -> Seq<char> {
        match self {
            Platform::MacOs => "dylib"@,
            Platform::Windows => "dll"@,
            Platform::Other => "so"@,
        }
    }

    /// What dynamic libraries end in.
    pub fn library_extension(self) -> (extension: &'static str)
        ensures
            extension@ == self.extension(),
    {
        match self {
            Platform::MacOs => "dylib",
            Platform::Windows => "dll",
            Platform::Other => "so",
        }
    }

    /// Whether a file name can start behind `c`.
    pub open spec fn separates(self, c: char) -> bool {
        c == '/' || (self is Windows && (c == '\\' || c == ':'))
    }

    fn is_separator(self, c: char) -> (separates: bool)
        ensures
            separates == self.separates(c),
    {
        match self {
            Platform::Windows => c == '/' || c == '\\' || c == ':',
            _ => c == '/',
        }
    }
}

/// How much of the path stands before the file name.
pub open spec fn folder_len(path: Seq<char>, platform: Platform) -> int
    decreases path.len(),
{
    if path.len() == 0 {
        0
    } else if platform.separates(path.last()) {
        path.len() as int
    } else {
        folder_len(path.drop_last(), platform)
    }
}

/// The file name that a path ends in.
pub open spec fn file_name(path: Seq<char>, platform: Platform) -> Seq<char> {
    path.skip(folder_len(path, platform))
}

/// The path, with the directory of a lone file name spelt out.
pub open spec fn located(path: Seq<char>, platform: Platform) -> Seq<char> {
    if folder_len(path, platform) == 0 {
        "./"@ + path
    } else {
        path
    }
}

/// The file is called `stem`, with an extension.
pub open spec fn has_stem(file: Seq<char>, stem: Seq<char>) -> bool {
    &&& stem.len() < file.len()
    &&& file.take(stem.len() as int) == stem
    &&& file[stem.len() as int] == '.'
}

/// The file name with `?` for the name of the plugin. The file has to be called by that
/// name, with or without the prefix `lib`: one that is called otherwise has no pattern.
pub open spec fn file_pattern(file: Seq<char>, name: Seq<char>) -> Option<Seq<char>> {
    if has_stem(file, name) {
        Some("?"@ + file.skip(name.len() as int))
    } else if has_stem(file, "lib"@ + name) {
        Some("lib?"@ + file.skip(("lib"@ + name).len() as int))
    } else {
        None
    }
}

/// The template that leads to the file at `path`, if that is called by the plugin's name.
pub open spec fn own_template(
    name: Seq<char>,
    path: Seq<char>,
    platform: Platform,
) -> Option<Seq<char>> {
    let at = folder_len(path, platform);
    match file_pattern(path.skip(at), name) {
        Some(pattern) => Some(
            (if at == 0 {
                "./"@
            } else {
                path.take(at)
            }) + pattern,
        ),
        None => None,
    }
}

/// The template for the plugins in a directory that are called as the platform has it.
pub open spec fn usual_template(dir: Seq<char>, platform: Platform) -> Seq<char> {
    dir + "/?."@ + platform.extension()
}

/// How a character is written in a Lua string.
pub open spec fn escaped(c: char) -> Seq<char> {
    if c == '\\' {
        "\\\\"@
    } else if c == '"' {
        "\\\""@
    } else if c == '\n' {
        "\\n"@
    } else if c == '\r' {
        "\\r"@
    } else {
        seq![c]
    }
}

/// How a text is written in a Lua string.
pub open spec fn quoted(s: Seq<char>) -> Seq<char>
    decreases s.len(),
{
    if s.len() == 0 {
        Seq::empty()
    } else {
        escaped(s.first()) + quoted(s.drop_first())
    }
}

/// What the character behind a backslash stands for in a Lua string. Lua knows more
/// escapes than these.
pub open spec fn unescaped(c: char) -> Option<char> {
    if c == '\\' || c == '"' {
        Some(c)
    } else if c == 'n' {
        Some('\n')
    } else if c == 'r' {
        Some('\r')
    } else {
        None
    }
}

/// The text that a Lua string holds, given what stands between its quotation marks. There
/// is none if that ends the string early, or holds another escape.
pub open spec fn read_back(literal: Seq<char>) -> Option<Seq<char>>
    decreases literal.len(),
{
    if literal.len() == 0 {
        Some(Seq::empty())
    } else if literal[0] == '\\' {
        if literal.len() == 1 {
            None
        } else {
            match (unescaped(literal[1]), read_back(literal.skip(2))) {
                (Some(c), Some(rest)) => Some(seq![c] + rest),
                _ => None,
            }
        }
    } else if literal[0] == '"' || literal[0] == '\n' || literal[0] == '\r' {
        None
    } else {
        match read_back(literal.skip(1)) {
            Some(rest) => Some(seq![literal[0]] + rest),
            None => None,
        }
    }
}

/// The name of a module as it goes into a template: Lua takes its dots for directories.
pub open spec fn looked_up_as(name: Seq<char>, platform: Platform) -> Seq<char> {
    name.map_values(
        |c: char|
            if c == '.' {
                if platform is Windows {
                    '\\'
                } else {
                    '/'
                }
            } else {
                c
            },
    )
}

/// The file that Lua looks for: `module` takes the place of every `?`.
pub open spec fn expansion(template: Seq<char>, module: Seq<char>) -> Seq<char>
    decreases template.len(),
{
    if template.len() == 0 {
        Seq::empty()
    } else {
        expansion(template.drop_last(), module) + if template.last() == '?' {
            module
        } else {
            seq![template.last()]
        }
    }
}

/// How much of the path stands before the file name.
fn start_of_file_name(path: &str, platform: Platform) -> (at: usize)
    ensures
        at == folder_len(path@, platform),
        at <= path@.len(),
{
    let mut at: usize = path.unicode_len();
    assert(path@.take(at as int) =~= path@);
    while at > 0 && !platform.is_separator(path.get_char(at - 1))
        invariant
            at <= path@.len(),
            folder_len(path@, platform) == folder_len(path@.take(at as int), platform),
        decreases at,
    {
        assert(path@.take(at as int).drop_last() =~= path@.take(at - 1));
        at -= 1;
    }
    at
}

/// Whether the file is called `stem`, with an extension.
fn is_called(file: &str, stem: &str) -> (called: bool)
    ensures
        called == has_stem(file@, stem@),
{
    let len: usize = stem.unicode_len();
    if file.unicode_len() <= len {
        return false;
    }
    let start = file.substring_char(0, len);
    assert(start@ =~= file@.take(len as int));
    text::same_text(start, stem) && file.get_char(len) == '.'
}

/// The template that leads to the file at `path`, if that is called by the plugin's name.
pub fn template_for(name: &str, path: &str, platform: Platform) -> (template: Option<String>)
    ensures
        plugin::optional_text(template) == own_template(name@, path@, platform),
{
    let at: usize = start_of_file_name(path, platform);
    let end: usize = path.unicode_len();
    let file = path.substring_char(at, end);
    assert(file@ =~= path@.skip(at as int));
    let mut prefixed = "lib".to_owned();
    prefixed.append(name);
    let (mark, stem): (&str, &str) = if is_called(file, name) {
        ("?", name)
    } else if is_called(file, prefixed.as_str()) {
        ("lib?", prefixed.as_str())
    } else {
        return None;
    };
    let rest = file.substring_char(stem.unicode_len(), file.unicode_len());
    assert(rest@ =~= file@.skip(stem@.len() as int));
    let folder: &str = if at == 0 {
        "./"
    } else {
        path.substring_char(0, at)
    };
    assert(at > 0 ==> folder@ =~= path@.take(at as int));
    let mut template = folder.to_owned();
    template.append(mark);
    template.append(rest);
    assert(template@ =~= folder@ + (mark@ + rest@));
    Some(template)
}

/// Writes a text as it stands in a Lua string.
pub fn quote(s: &str) -> (literal: String)
    ensures
        literal@ == quoted(s@),
{
    let len: usize = s.unicode_len();
    let mut literal = String::new();
    let mut i: usize = 0;
    assert(s@.skip(0) =~= s@);
    assert(literal@ + quoted(s@) =~= quoted(s@));
    while i < len
        invariant
            i <= len,
            len == s@.len(),
            literal@ + quoted(s@.skip(i as int)) == quoted(s@),
        decreases len - i,
    {
        let ghost rest = s@.skip(i as int);
        let ghost before = literal@;
        let c = s.get_char(i);
        let part: &str = if c == '\\' {
            "\\\\"
        } else if c == '"' {
            "\\\""
        } else if c == '\n' {
            "\\n"
        } else if c == '\r' {
            "\\r"
        } else {
            s.substring_char(i, i + 1)
        };
        literal.append(part);
        proof {
            assert(s@.subrange(i as int, i + 1) =~= seq![c]);
            assert(part@ == escaped(rest.first()));
            assert(rest.drop_first() =~= s@.skip(i + 1));
            assert(before + part@ + quoted(s@.skip(i + 1)) =~= before + (part@ + quoted(
                s@.skip(i + 1),
            )));
        }
        i += 1;
    }
    assert(literal@ + quoted(s@.skip(len as int)) =~= literal@);
    literal
}

/// A path that is split at slashes on every platform, and at nothing else: one without
/// backslashes and drive letters that does not start like a network share.
pub open spec fn is_slash_path(path: Seq<char>) -> bool {
    &&& forall|i: int| 0 <= i < path.len() ==> #[trigger] path[i] != '\\' && path[i] != ':'
    &&& !(path.len() >= 2 && path[0] == '/' && path[1] == '/')
}

/// How much of the path is its root, or a `.` for its first component.
pub open spec fn head_len(path: Seq<char>) -> int {
    if path.len() > 0 && (path[0] == '/' || (path[0] == '.' && (path.len() == 1 || path[1]
        == '/'))) {
        1
    } else {
        0
    }
}

/// What stands behind the head and the last slash: the last component, or nothing.
pub open spec fn last_part(path: Seq<char>) -> Seq<char> {
    let at = folder_len(path, Platform::Other);
    if at > head_len(path) {
        path.skip(at)
    } else {
        path.skip(head_len(path))
    }
}

/// The path without its last part, and without the slash before that.
pub open spec fn before_last_part(path: Seq<char>) -> Seq<char> {
    let at = folder_len(path, Platform::Other);
    if at > head_len(path) {
        path.take(at - 1)
    } else {
        path.take(head_len(path))
    }
}

/// The path without the slashes and `.` components at its end that mean nothing.
pub open spec fn without_idle_end(path: Seq<char>) -> Seq<char>
    decreases path.len(),
{
    proof {
        lemma_folder_within(path, Platform::Other);
    }
    if path.len() > head_len(path) && (last_part(path).len() == 0 || last_part(path) == seq!['.']) {
        without_idle_end(before_last_part(path))
    } else {
        path
    }
}

/// The directory of a path that is split at slashes: the path without its last component.
/// The root has none, and neither has the empty path.
pub open spec fn slash_parent(path: Seq<char>) -> Option<Seq<char>> {
    let whole = without_idle_end(path);
    if whole.len() > head_len(whole) {
        Some(without_idle_end(before_last_part(whole)))
    } else if whole.len() > 0 && whole[0] == '.' {
        Some(Seq::empty())
    } else {
        None
    }
}

/// `parent` can be what stands before the last component of `path`.
pub open spec fn is_parent(parent: Option<Seq<char>>, path: Seq<char>) -> bool {
    &&& parent matches Some(dir) ==> dir.is_prefix_of(path)
    &&& is_slash_path(path) ==> parent == slash_parent(path)
}

/// `std::path::Path::parent`. Claimed of it: it gives a first part of the path. If the
/// path is split at slashes and at nothing else, that is the path without its last
/// component, where repeated slashes, a slash at the end, and `.` for a component other
/// than the first do not count; there is none for the root and for the empty path. Where
/// other paths are split depends on the platform, and is left open.
#[verifier::external_body]
pub(crate) fn parent_of(path: &str) -> (parent: Option<String>)
    ensures
        is_parent(plugin::optional_text(parent), path@),
{
    match std::path::Path::new(path).parent() {
        Some(parent) => Some(parent.to_string_lossy().into_owned()),
        None => None,
    }
}

/// What stands before the file name is part of the path.
pub proof fn lemma_folder_within(path: Seq<char>, platform: Platform)
    ensures
        0 <= folder_len(path, platform) <= path.len(),
    decreases path.len(),
{
    if path.len() > 0 {
        lemma_folder_within(path.drop_last(), platform);
    }
}

proof fn lemma_expansion_of_plain(s: Seq<char>, module: Seq<char>)
    requires
        !s.contains('?'),
    ensures
        expansion(s, module) == s,
    decreases s.len(),
{
    if s.len() > 0 {
        let rest = s.drop_last();
        if rest.contains('?') {
            let i = choose|i: int| 0 <= i < rest.len() && rest[i] == '?';
            assert(s[i] == '?');
        }
        lemma_expansion_of_plain(rest, module);
        assert(s[s.len() - 1] != '?');
        assert(rest.push(s.last()) =~= s);
    }
    assert(expansion(s, module) =~= s);
}

proof fn lemma_expansion_adds_up(a: Seq<char>, b: Seq<char>, module: Seq<char>)
    ensures
        expansion(a + b, module) == expansion(a, module) + expansion(b, module),
    decreases b.len(),
{
    if b.len() == 0 {
        assert(a + b =~= a);
        assert(expansion(a, module) + expansion(b, module) =~= expansion(a, module));
    } else {
        assert((a + b).drop_last() =~= a + b.drop_last());
        lemma_expansion_adds_up(a, b.drop_last(), module);
        assert(expansion(a + b, module) =~= expansion(a, module) + expansion(b, module));
    }
}

/// `front`, a mark, and `back`.
proof fn lemma_expansion_at_mark(front: Seq<char>, back: Seq<char>, module: Seq<char>)
    requires
        !front.contains('?'),
        !back.contains('?'),
    ensures
        expansion(front + seq!['?'] + back, module) == front + module + back,
{
    let mark = seq!['?'];
    lemma_expansion_adds_up(front + mark, back, module);
    lemma_expansion_adds_up(front, mark, module);
    lemma_expansion_of_plain(front, module);
    lemma_expansion_of_plain(back, module);
    reveal_with_fuel(expansion, 2);
    assert(expansion(mark, module) =~= module);
}

proof fn lemma_read_back_one(c: char, rest: Seq<char>)
    ensures
        read_back(escaped(c) + rest) == match read_back(rest) {
            Some(text) => Some(seq![c] + text),
            None => None,
        },
{
    reveal_strlit("\\\\");
    reveal_strlit("\\\"");
    reveal_strlit("\\n");
    reveal_strlit("\\r");
    let literal = escaped(c) + rest;
    if escaped(c).len() == 2 {
        assert(literal.skip(2) =~= rest);
    } else {
        assert(literal.skip(1) =~= rest);
    }
}

/// Lua reads a text that has been quoted as it was.
pub proof fn law_quoted_text_reads_back(s: Seq<char>)
    ensures
        read_back(quoted(s)) == Some(s),
    decreases s.len(),
{
    if s.len() > 0 {
        law_quoted_text_reads_back(s.drop_first());
        lemma_read_back_one(s.first(), quoted(s.drop_first()));
        assert(seq![s.first()] + s.drop_first() =~= s);
    }
}

/// Around the mark of a template of its own stand parts of the path.
proof fn lemma_own_template_parts(name: Seq<char>, path: Seq<char>, platform: Platform) -> (parts: (
    Seq<char>,
    Seq<char>,
))
    requires
        own_template(name, path, platform) is Some,
    ensures
        own_template(name, path, platform)->Some_0 == parts.0 + seq!['?'] + parts.1,
        parts.0 + name + parts.1 == located(path, platform),
{
    reveal_strlit("?");
    reveal_strlit("lib?");
    reveal_strlit("lib");
    lemma_folder_within(path, platform);
    let at = folder_len(path, platform);
    let file = path.skip(at);
    let folder = if at == 0 {
        "./"@
    } else {
        path.take(at)
    };
    let (prefix, stem) = if has_stem(file, name) {
        (Seq::<char>::empty(), name)
    } else {
        ("lib"@, "lib"@ + name)
    };
    let back = file.skip(stem.len() as int);
    let front = folder + prefix;
    assert(own_template(name, path, platform)->Some_0 =~= front + seq!['?'] + back);
    assert(prefix + name =~= stem);
    assert(file =~= file.take(stem.len() as int) + back);
    assert(path =~= path.take(at) + file);
    assert(front + name + back =~= folder + file);
    assert(folder + file =~= located(path, platform));
    (front, back)
}

/// A path that is spelt out holds no new characters, but for `.` and `/`.
proof fn lemma_not_located(path: Seq<char>, platform: Platform, c: char)
    requires
        !path.contains(c),
        c != '.',
        c != '/',
    ensures
        !located(path, platform).contains(c),
{
    reveal_strlit("./");
    let whole = located(path, platform);
    if whole.contains(c) {
        let i = choose|i: int| 0 <= i < whole.len() && whole[i] == c;
        if folder_len(path, platform) == 0 {
            assert(path[i - 2] == c);
        }
    }
}

/// What is not in the whole is in no part of it.
proof fn lemma_not_in_parts(front: Seq<char>, middle: Seq<char>, back: Seq<char>, c: char)
    requires
        !(front + middle + back).contains(c),
    ensures
        !front.contains(c),
        !back.contains(c),
{
    let whole = front + middle + back;
    if front.contains(c) {
        let i = choose|i: int| 0 <= i < front.len() && front[i] == c;
        assert(whole[i] == c);
    }
    if back.contains(c) {
        let i = choose|i: int| 0 <= i < back.len() && back[i] == c;
        assert(whole[front.len() + middle.len() + i] == c);
    }
}

/// A template of its own leads Lua to the very file of the plugin, as long as the name
/// has no dots, and the path no `?` of its own. It is a single one, unless the path holds
/// a `;`, by which Lua tells templates apart.
pub proof fn law_template_leads_to_the_file(
    name: Seq<char>,
    path: Seq<char>,
    platform: Platform,
)
    requires
        own_template(name, path, platform) is Some,
        !name.contains('.'),
        !path.contains('?'),
    ensures
        expansion(own_template(name, path, platform)->Some_0, looked_up_as(name, platform))
            == located(path, platform),
        !path.contains(';') ==> !own_template(name, path, platform)->Some_0.contains(';'),
{
    let (front, back) = lemma_own_template_parts(name, path, platform);
    assert forall|i: int| 0 <= i < name.len() implies looked_up_as(name, platform)[i]
        == name[i] by {
        assert(name.contains(name[i]));
    }
    assert(looked_up_as(name, platform) =~= name);
    lemma_not_located(path, platform, '?');
    lemma_not_in_parts(front, name, back, '?');
    lemma_expansion_at_mark(front, back, name);
    if !path.contains(';') {
        lemma_not_located(path, platform, ';');
        lemma_not_in_parts(front, name, back, ';');
        let template = front + seq!['?'] + back;
        if template.contains(';') {
            let i = choose|i: int| 0 <= i < template.len() && template[i] == ';';
            if i < front.len() {
                assert(front[i] == ';');
            } else {
                assert(back[i - front.len() - 1] == ';');
            }
        }
    }
}

/// A plugin that discovery calls `name` has a template of its own.
pub proof fn law_found_plugins_have_a_template(
    name: Seq<char>,
    path: Seq<char>,
    platform: Platform,
)
    requires
        discover::plugin_in(file_name(path, platform)) == Some(name),
    ensures
        own_template(name, path, platform) is Some,
{
    let file = file_name(path, platform);
    let dot = discover::last_dot(file);
    discover::lemma_last_dot(file);
    let stem = file.take(dot);
    assert(file.take(stem.len() as int) =~= stem);
    assert(has_stem(file, stem));
    reveal_strlit("lib");
    if stem.len() >= 3 && stem.take(3) == "lib"@ {
        assert("lib"@ + name =~= stem);
    }
}

/// What dynamic libraries end in, and at what a path can be split, on each platform.
pub proof fn law_platforms(c: char)
    ensures
        Platform::MacOs.extension() == "dylib"@,
        Platform::Windows.extension() == "dll"@,
        Platform::Other.extension() == "so"@,
        Platform::MacOs.separates(c) <==> c == '/',
        Platform::Other.separates(c) <==> c == '/',
        Platform::Windows.separates(c) <==> c == '/' || c == '\\' || c == ':',
{
}

/// The file name of a path is what stands behind the last separator, or the whole path if
/// there is none, in which case it is located in the directory `.`.
pub proof fn law_file_name_ends_the_path(folder: Seq<char>, file: Seq<char>, platform: Platform)
    requires
        folder.len() > 0 ==> platform.separates(folder.last()),
        forall|i: int| 0 <= i < file.len() ==> !platform.separates(#[trigger] file[i]),
    ensures
        folder_len(folder + file, platform) == folder.len(),
        file_name(folder + file, platform) == file,
        located(folder + file, platform) == (if folder.len() == 0 {
            "./"@ + file
        } else {
            folder + file
        }),
    decreases file.len(),
{
    let path = folder + file;
    if file.len() == 0 {
        assert(path =~= folder);
        assert(path.skip(folder.len() as int) =~= file);
    } else {
        let rest = file.drop_last();
        assert forall|i: int| 0 <= i < rest.len() implies !platform.separates(
            #[trigger] rest[i],
        ) by {
            assert(rest[i] == file[i]);
        }
        assert(path.drop_last() =~= folder + rest);
        assert(path.last() == file[file.len() - 1]);
        law_file_name_ends_the_path(folder, rest, platform);
        assert(path.skip(folder.len() as int) =~= file);
    }
    if folder.len() == 0 {
        assert(path =~= file);
    }
}

/// A name that repeats `lib` has no dots in what it repeats.
proof fn lemma_repeats_lib(name: Seq<char>, i: int)
    requires
        0 <= i < name.len(),
        forall|j: int| 0 <= j < name.len() ==> #[trigger] name[j] == ("lib"@ + name)[j],
    ensures
        name[i] != '.',
    decreases i,
{
    reveal_strlit("lib");
    assert(name[i] == ("lib"@ + name)[i]);
    if i >= 3 {
        lemma_repeats_lib(name, i - 3);
        assert(("lib"@ + name)[i] == name[i - 3]);
    }
}

/// A file that is called `lib`, the name and an extension is not called the name and an
/// extension.
proof fn lemma_prefixed_stem(name: Seq<char>, rest: Seq<char>)
    ensures
        !has_stem("lib"@ + name + "."@ + rest, name),
        has_stem("lib"@ + name + "."@ + rest, "lib"@ + name),
        has_stem(name + "."@ + rest, name),
{
    reveal_strlit("lib");
    reveal_strlit(".");
    let file = "lib"@ + name + "."@ + rest;
    let n = name.len() as int;
    assert(file.take(n + 3) =~= "lib"@ + name);
    assert((name + "."@ + rest).take(n) =~= name);
    if has_stem(file, name) {
        assert forall|j: int| 0 <= j < n implies #[trigger] name[j] == ("lib"@ + name)[j] by {
            assert(file.take(n)[j] == file[j]);
        }
        if n >= 3 {
            lemma_repeats_lib(name, n - 3);
            assert(file[n] == name[n - 3]);
        }
    }
}

proof fn lemma_patterns(name: Seq<char>, rest: Seq<char>)
    ensures
        file_pattern(name + "."@ + rest, name) == Some("?."@ + rest),
        file_pattern("lib"@ + name + "."@ + rest, name) == Some("lib?."@ + rest),
{
    reveal_strlit(".");
    reveal_strlit("?");
    reveal_strlit("?.");
    reveal_strlit("lib?");
    reveal_strlit("lib?.");
    lemma_prefixed_stem(name, rest);
    assert("?"@ + (name + "."@ + rest).skip(name.len() as int) =~= "?."@ + rest);
    let stem = "lib"@ + name;
    assert("lib?"@ + (stem + "."@ + rest).skip(stem.len() as int) =~= "lib?."@ + rest);
}

proof fn lemma_file_has_no_separators(name: Seq<char>, rest: Seq<char>, platform: Platform)
    requires
        forall|i: int| 0 <= i < name.len() ==> !platform.separates(#[trigger] name[i]),
        forall|i: int| 0 <= i < rest.len() ==> !platform.separates(#[trigger] rest[i]),
    ensures
        forall|i: int|
            0 <= i < (name + "."@ + rest).len() ==> !platform.separates(
                #[trigger] (name + "."@ + rest)[i],
            ),
        forall|i: int|
            0 <= i < ("lib"@ + name + "."@ + rest).len() ==> !platform.separates(
                #[trigger] ("lib"@ + name + "."@ + rest)[i],
            ),
{
    reveal_strlit(".");
    reveal_strlit("lib");
    let bare = name + "."@ + rest;
    let prefixed = "lib"@ + name + "."@ + rest;
    assert forall|i: int| 0 <= i < bare.len() implies !platform.separates(#[trigger] bare[i]) by {
        if i < name.len() {
            assert(bare[i] == name[i]);
        } else if i > name.len() {
            assert(bare[i] == rest[i - name.len() - 1]);
        }
    }
    assert forall|i: int| 0 <= i < prefixed.len() implies !platform.separates(
        #[trigger] prefixed[i],
    ) by {
        if i >= 3 {
            assert(prefixed[i] == bare[i - 3]);
        }
    }
}

/// The template for a file whose pattern is known.
proof fn lemma_template_by_pattern(
    folder: Seq<char>,
    file: Seq<char>,
    name: Seq<char>,
    platform: Platform,
)
    requires
        folder.len() > 0 ==> platform.separates(folder.last()),
        forall|i: int| 0 <= i < file.len() ==> !platform.separates(#[trigger] file[i]),
        file_pattern(file, name) is Some,
    ensures
        own_template(name, folder + file, platform) == Some(
            (if folder.len() == 0 {
                "./"@
            } else {
                folder
            }) + file_pattern(file, name)->Some_0,
        ),
{
    law_file_name_ends_the_path(folder, file, platform);
    assert((folder + file).take(folder.len() as int) =~= folder);
}

/// The template for a file that is called by the plugin's name has a `?` in place of that
/// name, and is the path of the file otherwise.
pub proof fn law_template_of_a_file(
    folder: Seq<char>,
    name: Seq<char>,
    rest: Seq<char>,
    platform: Platform,
)
    requires
        folder.len() > 0 ==> platform.separates(folder.last()),
        forall|i: int| 0 <= i < name.len() ==> !platform.separates(#[trigger] name[i]),
        forall|i: int| 0 <= i < rest.len() ==> !platform.separates(#[trigger] rest[i]),
    ensures
        folder.len() > 0 ==> own_template(name, folder + (name + "."@ + rest), platform) == Some(
            folder + ("?."@ + rest),
        ),
        folder.len() > 0 ==> own_template(name, folder + ("lib"@ + name + "."@ + rest), platform)
            == Some(folder + ("lib?."@ + rest)),
        folder.len() == 0 ==> own_template(name, folder + (name + "."@ + rest), platform) == Some(
            "./"@ + ("?."@ + rest),
        ),
        folder.len() == 0 ==> own_template(name, folder + ("lib"@ + name + "."@ + rest), platform)
            == Some("./"@ + ("lib?."@ + rest)),
{
    lemma_file_has_no_separators(name, rest, platform);
    lemma_patterns(name, rest);
    lemma_template_by_pattern(folder, name + "."@ + rest, name, platform);
    lemma_template_by_pattern(folder, "lib"@ + name + "."@ + rest, name, platform);
}

/// Only files that are called by the plugin's name, with or without the prefix `lib`, have
/// a template of their own.
pub proof fn law_templates_go_by_the_name(name: Seq<char>, path: Seq<char>, platform: Platform) -> (
    rest: Seq<char>)
    requires
        own_template(name, path, platform) is Some,
    ensures
        file_name(path, platform) == name + "."@ + rest || file_name(path, platform) == "lib"@
            + name + "."@ + rest,
{
    reveal_strlit(".");
    let file = file_name(path, platform);
    let stem = if has_stem(file, name) {
        name
    } else {
        "lib"@ + name
    };
    let rest = file.skip(stem.len() as int + 1);
    assert(file =~= file.take(stem.len() as int) + "."@ + rest);
    rest
}

/// The template for a directory.
pub proof fn law_usual_templates(dir: Seq<char>)
    ensures
        usual_template(dir, Platform::MacOs) == dir + "/?.dylib"@,
        usual_template(dir, Platform::Windows) == dir + "/?.dll"@,
        usual_template(dir, Platform::Other) == dir + "/?.so"@,
{
    reveal_strlit("/?.");
    reveal_strlit("dylib");
    reveal_strlit("dll");
    reveal_strlit("so");
    reveal_strlit("/?.dylib");
    reveal_strlit("/?.dll");
    reveal_strlit("/?.so");
    assert(usual_template(dir, Platform::MacOs) =~= dir + "/?.dylib"@);
    assert(usual_template(dir, Platform::Windows) =~= dir + "/?.dll"@);
    assert(usual_template(dir, Platform::Other) =~= dir + "/?.so"@);
}

/// A template expands part by part. The module takes the place of `?`, and every other
/// character stays.
pub proof fn law_expansion_part_by_part(
    a: Seq<char>,
    b: Seq<char>,
    c: char,
    module: Seq<char>,
)
    ensures
        expansion(a + b, module) == expansion(a, module) + expansion(b, module),
        expansion(seq!['?'], module) == module,
        c != '?' ==> expansion(seq![c], module) == seq![c],
{
    lemma_expansion_adds_up(a, b, module);
    reveal_with_fuel(expansion, 2);
    assert(expansion(seq!['?'], module) =~= module);
    if c != '?' {
        assert(expansion(seq![c], module) =~= seq![c]);
    }
}

/// A text is quoted part by part. Backslashes, quotation marks and line breaks are
/// escaped, and every other character stays.
pub proof fn law_quoting_part_by_part(a: Seq<char>, b: Seq<char>, c: char)
    ensures
        quoted(a + b) == quoted(a) + quoted(b),
        quoted(seq!['\\']) == "\\\\"@,
        quoted(seq!['"']) == "\\\""@,
        quoted(seq!['\n']) == "\\n"@,
        quoted(seq!['\r']) == "\\r"@,
        c != '\\' && c != '"' && c != '\n' && c != '\r' ==> quoted(seq![c]) == seq![c],
    decreases a.len(),
{
    if a.len() == 0 {
        assert(a + b =~= b);
        assert(quoted(a) + quoted(b) =~= quoted(b));
    } else {
        assert((a + b).drop_first() =~= a.drop_first() + b);
        law_quoting_part_by_part(a.drop_first(), b, c);
        assert(quoted(a + b) =~= quoted(a) + quoted(b));
    }
    lemma_quoted_one('\\');
    lemma_quoted_one('"');
    lemma_quoted_one('\n');
    lemma_quoted_one('\r');
    lemma_quoted_one(c);
}

proof fn lemma_quoted_one(c: char)
    ensures
        quoted(seq![c]) == escaped(c),
{
    reveal_with_fuel(quoted, 2);
    assert(quoted(seq![c]) =~= escaped(c));
}

/// A text without backslashes, quotation marks and line breaks needs no escapes.
pub proof fn law_ordinary_text_stays(s: Seq<char>)
    requires
        !s.contains('\\'),
        !s.contains('"'),
        !s.contains('\n'),
        !s.contains('\r'),
    ensures
        quoted(s) == s,
    decreases s.len(),
{
    if s.len() > 0 {
        let rest = s.drop_first();
        assert(s.contains(s[0]));
        assert forall|c: char| #[trigger] rest.contains(c) implies s.contains(c) by {
            let i = choose|i: int| 0 <= i < rest.len() && rest[i] == c;
            assert(s[i + 1] == c);
        }
        law_ordinary_text_stays(rest);
        assert(seq![s.first()] + rest =~= s);
    }
}

/// The directory of an ordinary path is what stands before its last slash. That of a file
/// in the root is the root, and that of a lone file name is empty. The root has none, and
/// neither has the empty path.
pub proof fn law_directory_of_a_path(dir: Seq<char>, file: Seq<char>)
    requires
        dir.len() > 0,
        dir.last() != '/',
        dir.len() > 1 ==> !(dir.last() == '.' && dir[dir.len() - 2] == '/'),
        file.len() > 0,
        file != "."@,
        !file.contains('/'),
    ensures
        slash_parent(dir + "/"@ + file) == Some(dir),
        slash_parent("/"@ + file) == Some("/"@),
        slash_parent(file) == Some(Seq::<char>::empty()),
        slash_parent("/"@) is None,
        slash_parent(Seq::empty()) is None,
{
    reveal_strlit("/");
    reveal_strlit(".");
    assert("."@ =~= seq!['.']);
    let nowhere = Seq::<char>::empty();
    let front = dir + "/"@;
    assert forall|i: int| 0 <= i < file.len() implies !Platform::Other.separates(
        #[trigger] file[i],
    ) by {
        assert(file.contains(file[i]));
    }
    law_file_name_ends_the_path(front, file, Platform::Other);
    law_file_name_ends_the_path("/"@, file, Platform::Other);
    law_file_name_ends_the_path(nowhere, file, Platform::Other);
    assert(nowhere + file =~= file);
    assert(file.contains(file[0]));
    // With a directory.
    let path = front + file;
    assert(path.skip(front.len() as int) =~= file);
    assert(path.take(front.len() - 1) =~= dir);
    assert(without_idle_end(path) == path);
    lemma_no_idle_end(dir);
    // In the root.
    let top = "/"@ + file;
    assert(top.skip(1) =~= file);
    assert(top.take(1) =~= "/"@);
    assert(without_idle_end(top) == top);
    assert(without_idle_end("/"@) == "/"@);
    // On its own.
    if head_len(file) == 0 {
        assert(file.skip(0) =~= file);
        assert(file.take(0) =~= nowhere);
        assert(without_idle_end(file) == file);
        assert(without_idle_end(nowhere) == nowhere);
    } else if file.len() == 1 {
        assert(file =~= seq!['.']);
    } else {
        assert(file.contains(file[1]));
    }
}

proof fn lemma_no_idle_end(dir: Seq<char>)
    requires
        dir.len() > 0,
        dir.last() != '/',
        dir.len() > 1 ==> !(dir.last() == '.' && dir[dir.len() - 2] == '/'),
    ensures
        without_idle_end(dir) == dir,
{
    let at = folder_len(dir, Platform::Other);
    lemma_folder_within(dir, Platform::Other);
    lemma_folder_ends(dir, Platform::Other);
    let part = last_part(dir);
    if dir.len() > head_len(dir) {
        let start = if at > head_len(dir) {
            at
        } else {
            head_len(dir)
        };
        assert(part.len() == dir.len() - start);
        if part.len() == 0 {
            assert(dir[at - 1] == '/');
        } else if part == seq!['.'] {
            assert(dir[start] == part[0]);
            if start == 0 {
                assert(dir.len() == 1);
            } else if at > head_len(dir) {
                assert(dir[at - 1] == '/');
            } else {
                assert(dir.len() == 2);
            }
        }
    }
}

/// Before the file name stands a separator, if anything.
proof fn lemma_folder_ends(path: Seq<char>, platform: Platform)
    ensures
        folder_len(path, platform) > 0 ==> platform.separates(
            path[folder_len(path, platform) - 1],
        ),
    decreases path.len(),
{
    if path.len() > 0 {
        lemma_folder_within(path.drop_last(), platform);
        lemma_folder_ends(path.drop_last(), platform);
    }
}

proof fn lemma_idle_ends(x: Seq<char>)
    requires
        x.len() > 0,
    ensures
        without_idle_end(x + "/"@) == without_idle_end(x),
        without_idle_end(x + "/."@) == without_idle_end(x),
{
    reveal_strlit("/");
    reveal_strlit("/.");
    let slash = x + "/"@;
    law_file_name_ends_the_path(slash, Seq::empty(), Platform::Other);
    assert(slash + Seq::empty() =~= slash);
    assert(last_part(slash) =~= Seq::empty());
    assert(before_last_part(slash) =~= x);
    let dot = x + "/."@;
    let one = seq!['.'];
    law_file_name_ends_the_path(slash, one, Platform::Other);
    assert(slash + one =~= dot);
    assert(last_part(dot) =~= one);
    assert(before_last_part(dot) =~= x);
}

/// Repeated slashes, slashes at the end, and `.` for a component behind the first do not
/// change what the directory of a path is.
pub proof fn law_idle_parts_do_not_count(x: Seq<char>, file: Seq<char>)
    requires
        x.len() > 0,
        file.len() > 0,
        file != "."@,
        !file.contains('/'),
    ensures
        slash_parent(x + "/"@) == slash_parent(x),
        slash_parent(x + "/."@) == slash_parent(x),
        slash_parent(x + "/"@ + "/"@ + file) == slash_parent(x + "/"@ + file),
        slash_parent(x + "/."@ + "/"@ + file) == slash_parent(x + "/"@ + file),
{
    lemma_idle_ends(x);
    lemma_parent_behind(x, file);
    assert((x + "/"@).len() > 0 && (x + "/."@).len() > 0);
    lemma_parent_behind(x + "/"@, file);
    lemma_parent_behind(x + "/."@, file);
}

/// The directory of a file behind `x`.
proof fn lemma_parent_behind(x: Seq<char>, file: Seq<char>)
    requires
        x.len() > 0,
        file.len() > 0,
        file != "."@,
        !file.contains('/'),
    ensures
        slash_parent(x + "/"@ + file) == Some(without_idle_end(x)),
{
    reveal_strlit("/");
    reveal_strlit(".");
    assert("."@ =~= seq!['.']);
    let front = x + "/"@;
    let path = front + file;
    assert forall|i: int| 0 <= i < file.len() implies !Platform::Other.separates(
        #[trigger] file[i],
    ) by {
        assert(file.contains(file[i]));
    }
    law_file_name_ends_the_path(front, file, Platform::Other);
    assert(last_part(path) =~= file);
    assert(before_last_part(path) =~= x);
    assert(without_idle_end(path) == path);
}

/// Dots in the name of a module stand for directories, and nothing else in it changes.
pub proof fn law_names_are_looked_up(name: Seq<char>, i: int)
    requires
        0 <= i < name.len(),
    ensures
        looked_up_as(name, Platform::Other).len() == name.len(),
        looked_up_as(name, Platform::MacOs).len() == name.len(),
        looked_up_as(name, Platform::Windows).len() == name.len(),
        name[i] != '.' ==> looked_up_as(name, Platform::Other)[i] == name[i] && looked_up_as(
            name,
            Platform::MacOs,
        )[i] == name[i] && looked_up_as(name, Platform::Windows)[i] == name[i],
        name[i] == '.' ==> looked_up_as(name, Platform::Other)[i] == '/' && looked_up_as(
            name,
            Platform::MacOs,
        )[i] == '/' && looked_up_as(name, Platform::Windows)[i] == '\\',
{
}

} // verus!
