//! Plugin loading.
//!
//! Works out which plugins load, words the ex-commands that make Neovim load and
//! unload them, and books what Neovim answered.

use vstd::prelude::*;

use crate::graph;
use crate::graph::Graph;
use crate::load_time;
use crate::load_time::LoadTime;
use crate::plugin;
use crate::plugin::PluginModel;
use crate::plugin::PluginSpec;
use crate::resolve;
use crate::resolve::ResolveError;
use crate::search;
use crate::search::Platform;
use crate::state;
use crate::state::PluginEntry;
use crate::state::PluginStatus;
use crate::state::State;
use crate::state::StatusCounts;
use crate::state::StatusModel;
use crate::text;

verus! {

/// Errors from the loader.
#[derive(Debug)]
pub enum LoadError {
    /// No load order could be found.
    Resolve(ResolveError),
    /// Neovim could not load or unload a plugin.
    Load { name: String, reason: String },
    /// There is no such plugin directory.
    DirNotFound(String),
    /// The plugin directory could not be read.
    Io(String),
}

/// A plugin that could not be loaded, in words.
pub open spec fn load_failure(name: Seq<char>, reason: Seq<char>) -> Seq<char> {
    "failed to load plugin '"@ + name + "': "@ + reason
}

impl LoadError {
    /// The error in words.
    pub open spec fn message(self) -> Seq<char> {
        match self {
            LoadError::Resolve(error) => "dependency resolution failed: "@ + error.message(),
            LoadError::Load { name, reason } => load_failure(name@, reason@),
            LoadError::DirNotFound(path) => "plugin directory does not exist: "@ + path@,
            LoadError::Io(reason) => "io error: "@ + reason@,
        }
    }

    /// Puts the error in words.
    pub fn to_string(&self) -> (message: String)
        ensures
            message@ == self.message(),
    {
        match self {
            LoadError::Resolve(error) => {
                let mut message = "dependency resolution failed: ".to_owned();
                let cause = error.to_string();
                message.append(cause.as_str());
                message
            },
            LoadError::Load { name, reason } => {
                let mut message = "failed to load plugin '".to_owned();
                message.append(name.as_str());
                message.append("': ");
                message.append(reason.as_str());
                message
            },
            LoadError::DirNotFound(path) => {
                let mut message = "plugin directory does not exist: ".to_owned();
                message.append(path.as_str());
                message
            },
            LoadError::Io(reason) => {
                let mut message = "io error: ".to_owned();
                message.append(reason.as_str());
                message
            },
        }
    }
}

impl From<ResolveError> for LoadError {
    fn from(error: ResolveError) -> (converted: Self) {
        LoadError::Resolve(error)
    }
}

impl vstd::std_specs::convert::FromSpecImpl<ResolveError> for LoadError {
    open spec fn obeys_from_spec() -> bool {
        true
    }

    open spec fn from_spec(error: ResolveError) -> Self {
        LoadError::Resolve(error)
    }
}

/// The directory in which to look: the parent of the plugin's file, or `.`.
pub open spec fn search_dir(parent: Option<Seq<char>>) -> Seq<char> {
    match parent {
        Some(dir) => dir,
        None => "."@,
    }
}

/// Lua that puts the usual template for `dir` on `package.cpath`, unless its text occurs
/// there.
pub open spec fn usual_search(dir: Seq<char>, platform: Platform) -> Seq<char> {
    "e = \""@ + search::quoted(search::usual_template(dir, platform)) + "\" if not "@
        + "package.cpath:find(e, 1, true) then package.cpath = package.cpath .. \";\" .. e end "@
}

/// Lua that puts a template on `package.cpath`, unless it is one of the entries there.
pub open spec fn own_search(template: Seq<char>) -> Seq<char> {
    "e = \""@ + search::quoted(template) + "\" if not "@
        + "(\";\" .. package.cpath .. \";\"):find(\";\" .. e .. \";\", 1, true) then package.cpath = package.cpath .. \";\" .. e end "@
}

/// Lua that lets the file of a plugin be found where the usual template does not lead to
/// it: for a file that is called `lib` and the plugin's name, say. Empty where it does,
/// and for a file that is called by another name.
pub open spec fn extra_search(
    name: Seq<char>,
    path: Seq<char>,
    dir: Seq<char>,
    platform: Platform,
) -> Seq<char> {
    match search::own_template(name, path, platform) {
        Some(template) => if template == search::usual_template(dir, platform) {
            Seq::empty()
        } else {
            own_search(template)
        },
        None => Seq::empty(),
    }
}

/// The command that has Lua find the plugin's file at `path`, and the libraries in `dir`,
/// and require the module `name`. Templates are quoted; the name goes in as it is.
pub open spec fn require_words(
    name: Seq<char>,
    path: Seq<char>,
    dir: Seq<char>,
    platform: Platform,
) -> Seq<char> {
    "lua do local "@ + extra_search(name, path, dir, platform) + usual_search(dir, platform)
        + "require(\""@ + name + "\") end"@
}

/// `command` requires the plugin `name` at `path`.
pub open spec fn is_require_command(
    command: Seq<char>,
    name: Seq<char>,
    path: Seq<char>,
    platform: Platform,
) -> bool {
    exists|parent: Option<Seq<char>>|
        {
            &&& command == #[trigger] require_words(name, path, search_dir(parent), platform)
            &&& search::is_parent(parent, path)
        }
}

/// Build the command that requires a module whose file, at `path`, has the directory
/// `parent`.
pub fn lua_require_command_in(
    name: &str,
    path: &str,
    parent: Option<&str>,
    platform: Platform,
) -> (command: String)
    ensures
        command@ == require_words(
            name@,
            path@,
            search_dir(plugin::optional_slice(parent)),
            platform,
        ),
{
    let dir: &str = match parent {
        Some(dir) => dir,
        None => ".",
    };
    let mut usual = dir.to_owned();
    usual.append("/?.");
    usual.append(platform.library_extension());
    let ghost extra = extra_search(name@, path@, dir@, platform);
    let mut command = "lua do local ".to_owned();
    if let Some(template) = search::template_for(name, path, platform) {
        if !text::same_text(template.as_str(), usual.as_str()) {
            command.append("e = \"");
            command.append(search::quote(template.as_str()).as_str());
            command.append("\" if not ");
            command.append(
                "(\";\" .. package.cpath .. \";\"):find(\";\" .. e .. \";\", 1, true) then package.cpath = package.cpath .. \";\" .. e end ",
            );
        }
    }
    assert(command@ =~= "lua do local "@ + extra);
    command.append("e = \"");
    command.append(search::quote(usual.as_str()).as_str());
    command.append("\" if not ");
    command.append(
        "package.cpath:find(e, 1, true) then package.cpath = package.cpath .. \";\" .. e end ",
    );
    assert(command@ =~= "lua do local "@ + extra + usual_search(dir@, platform));
    command.append("require(\"");
    command.append(name);
    command.append("\") end");
    command
}

/// Build a Lua command string that adds a directory to `package.cpath` and
/// requires a module. Uses `:lua` ex-command prefix.
///
/// Where the directory alone does not let Lua find the file, as with a file that is
/// called `lib` and the plugin's name, a template for the file is added too, before it.
pub fn lua_require_command(name: &str, path: &str, platform: Platform) -> (command: String)
    ensures
        is_require_command(command@, name@, path@, platform),
        search::is_slash_path(path@) ==> command@ == require_words(
            name@,
            path@,
            search_dir(search::slash_parent(path@)),
            platform,
        ),
{
    let parent = search::parent_of(path);
    let ghost seen = plugin::optional_text(parent);
    let command = match &parent {
        Some(dir) => lua_require_command_in(name, path, Some(dir.as_str()), platform),
        None => lua_require_command_in(name, path, None, platform),
    };
    assert(command@ == require_words(name@, path@, search_dir(seen), platform));
    command
}

/// `command` puts `template` on `package.cpath`, unless its text is there, and requires
/// `name` after that.
pub open spec fn adds_before_require(
    command: Seq<char>,
    template: Seq<char>,
    name: Seq<char>,
) -> bool {
    exists|before: Seq<char>, literal: Seq<char>, after: Seq<char>|
        {
            &&& #[trigger] (before + "e = \""@ + literal + "\" if not "@ + after + "require(\""@
                + name + "\") end"@) == command
            &&& search::read_back(literal) == Some(template)
        }
}

/// The parts of a command, once more.
proof fn lemma_regrouped(
    start: Seq<char>,
    opening: Seq<char>,
    literal: Seq<char>,
    closing: Seq<char>,
    test: Seq<char>,
    rest: Seq<char>,
)
    ensures
        start + (opening + literal + closing + test) + rest == start + opening + literal + closing
            + (test + rest),
{
    assert(start + (opening + literal + closing + test) + rest =~= start + opening + literal
        + closing + (test + rest));
}

/// Before a plugin is required, a template is added to `package.cpath`, unless its text is
/// there, that Lua expands to the plugin's file.
///
/// That goes for files that are called by the plugin's name, with or without the prefix
/// `lib`, and so for all that discovery finds. The name must stand for itself in a Lua
/// string, so that it holds no quotation mark, backslash or line break, and must have no
/// dots. The path must hold neither `?` nor `;`, which mean something in templates.
pub proof fn law_required_plugin_is_found(
    command: Seq<char>,
    name: Seq<char>,
    path: Seq<char>,
    platform: Platform,
) -> (template: Seq<char>)
    requires
        is_require_command(command, name, path, platform),
        search::file_pattern(search::file_name(path, platform), name) is Some,
        search::read_back(name) == Some(name),
        !name.contains('.'),
        !path.contains('?'),
        !path.contains(';'),
    ensures
        adds_before_require(command, template, name),
        !template.contains(';'),
        search::expansion(template, search::looked_up_as(name, platform)) == search::located(
            path,
            platform,
        ),
{
    let template = search::own_template(name, path, platform)->Some_0;
    search::law_template_leads_to_the_file(name, path, platform);
    search::law_quoted_text_reads_back(template);
    let parent = choose|parent: Option<Seq<char>>|
        {
            &&& command == #[trigger] require_words(name, path, search_dir(parent), platform)
            &&& search::is_parent(parent, path)
        };
    let dir = search_dir(parent);
    let literal = search::quoted(template);
    let start = "lua do local "@;
    let (opening, closing) = ("e = \""@, "\" if not "@);
    if template == search::usual_template(dir, platform) {
        let test =
            "package.cpath:find(e, 1, true) then package.cpath = package.cpath .. \";\" .. e end "@;
        let none = Seq::<char>::empty();
        assert(start + none =~= start);
        lemma_regrouped(start, opening, literal, closing, test, none);
        assert(usual_search(dir, platform) + none =~= usual_search(dir, platform));
        assert(start + usual_search(dir, platform) + none =~= start + usual_search(dir, platform));
        assert(test + none =~= test);
        assert(start + opening + literal + closing + test + "require(\""@ + name + "\") end"@
            == command);
    } else {
        let test =
            "(\";\" .. package.cpath .. \";\"):find(\";\" .. e .. \";\", 1, true) then package.cpath = package.cpath .. \";\" .. e end "@;
        let usual = usual_search(dir, platform);
        lemma_regrouped(start, opening, literal, closing, test, usual);
        assert(start + opening + literal + closing + (test + usual) + "require(\""@ + name
            + "\") end"@ == command);
    }
    template
}

/// A plugin whose turn it is.
#[derive(Debug, Clone)]
pub struct LoadStep {
    /// The name of the plugin.
    pub name: String,
    /// The path of its file.
    pub path: String,
    /// Whether it waits for a trigger.
    pub lazy: bool,
}

/// What a [`LoadStep`] says.
pub struct StepModel {
    pub name: Seq<char>,
    pub path: Seq<char>,
    pub lazy: bool,
}

impl View for LoadStep {
    type V = StepModel;

    open spec fn view(&self) -> StepModel {
        StepModel { name: self.name@, path: self.path@, lazy: self.lazy }
    }
}

/// What a list of steps says.
pub open spec fn steps(plan: Seq<LoadStep>) -> Seq<StepModel> {
    plan.map_values(|step: LoadStep| step@)
}

/// The last enabled specification of this name.
pub open spec fn latest(specs: Seq<PluginModel>, name: Seq<char>) -> Option<PluginModel>
    decreases specs.len(),
{
    if specs.len() == 0 {
        None
    } else if specs.last().enabled && specs.last().name == name {
        Some(specs.last())
    } else {
        latest(specs.drop_last(), name)
    }
}

/// The step that loads the plugin of this name.
pub open spec fn step_for(specs: Seq<PluginModel>, name: Seq<char>) -> StepModel {
    let chosen = latest(specs, name)->Some_0;
    StepModel { name, path: chosen.path, lazy: !chosen.is_eager() }
}

/// `plan` goes through the load order of `specs`.
pub open spec fn is_plan(specs: Seq<PluginModel>, plan: Seq<StepModel>) -> bool {
    &&& graph::is_complete(graph::graph(specs))
    &&& graph::is_load_order(graph::graph(specs), plan.map_values(|step: StepModel| step.name))
    &&& forall|i: int|
        0 <= i < plan.len() ==> latest(specs, (#[trigger] plan[i]).name) is Some && plan[i]
            == step_for(specs, plan[i].name)
}

/// A plugin of the graph has an enabled specification.
proof fn lemma_latest_exists(specs: Seq<PluginModel>, name: Seq<char>)
    requires
        graph::graph(specs).contains_key(name),
    ensures
        latest(specs, name) is Some,
    decreases specs.len(),
{
    if !(specs.last().enabled && specs.last().name == name) {
        lemma_latest_exists(specs.drop_last(), name);
    }
}

/// The steps so far are those for the names.
spec fn follows(
    specs: Seq<PluginModel>,
    names: Seq<Seq<char>>,
    plan: Seq<LoadStep>,
) -> bool {
    forall|j: int|
        0 <= j < plan.len() ==> (#[trigger] plan[j])@ == step_for(specs, names[j])
}

/// The last enabled specification of this name. There has to be one.
fn find_latest<'a>(specs: &'a [PluginSpec], name: &str) -> (found: &'a PluginSpec)
    requires
        latest(plugin::models(specs@), name@) is Some,
    ensures
        latest(plugin::models(specs@), name@) == Some(found@),
{
    let ghost all = plugin::models(specs@);
    let mut end: usize = specs.len();
    assert(all.take(end as int) =~= all);
    while end > 1 && !(specs[end - 1].enabled && text::same_text(
        specs[end - 1].name.as_str(),
        name,
    ))
        invariant
            end <= specs.len(),
            all == plugin::models(specs@),
            latest(all, name@) is Some,
            latest(all, name@) == latest(all.take(end as int), name@),
        decreases end,
    {
        assert(all.take(end as int).drop_last() =~= all.take(end - 1));
        assert(all.take(end as int).last() == specs[end - 1]@);
        end -= 1;
    }
    proof {
        assert(end > 0);
        assert(all.take(end as int).drop_last() =~= all.take(end - 1));
        assert(all.take(end as int).last() == specs[end - 1]@);
        if end == 1 {
            assert(latest(all.take(0), name@) is None);
        }
    }
    &specs[end - 1]
}

/// Load all eager plugins from the given specs in dependency order: plans the steps,
/// in order, that [`begin_step`] and [`finish_load`] take.
///
/// Lazy plugins are registered as pending but not loaded — their triggers
/// will be set up separately.
pub fn load_eager(specs: &[PluginSpec]) -> (plan: Result<Vec<LoadStep>, LoadError>)
    ensures
        match plan {
            Ok(plan) => is_plan(plugin::models(specs@), steps(plan@)),
            Err(LoadError::Resolve(error)) => resolve::resolves_to(
                graph::graph(plugin::models(specs@)),
                Err(error),
            ),
            Err(_) => false,
        },
{
    let ghost all = plugin::models(specs@);
    let ghost g = graph::graph(all);
    let order: Vec<String> = match resolve::resolve_load_order(specs) {
        Ok(order) => order,
        Err(error) => {
            return Err(LoadError::from(error));
        },
    };
    let ghost names = text::texts(order@);
    assert forall|j: int| 0 <= j < names.len() implies g.contains_key(#[trigger] names[j]) by {
        assert(names.contains(names[j]));
    }
    let mut plan: Vec<LoadStep> = Vec::new();
    let mut i: usize = 0;
    while i < order.len()
        invariant
            i <= order.len(),
            all == plugin::models(specs@),
            g == graph::graph(all),
            names == text::texts(order@),
            forall|j: int| 0 <= j < names.len() ==> g.contains_key(#[trigger] names[j]),
            plan.len() == i,
            follows(all, names, plan@),
        decreases order.len() - i,
    {
        let name: &String = &order[i];
        proof {
            assert(names[i as int] == name@);
            lemma_latest_exists(all, name@);
        }
        let chosen = find_latest(specs, name.as_str());
        let step = LoadStep {
            name: name.clone(),
            path: chosen.path.clone(),
            lazy: chosen.is_lazy(),
        };
        assert(step@ == step_for(all, names[i as int]));
        plan.push(step);
        i += 1;
    }
    proof {
        let made = steps(plan@);
        assert(made.map_values(|step: StepModel| step.name) =~= names);
        assert forall|j: int| 0 <= j < made.len() implies latest(
            all,
            (#[trigger] made[j]).name,
        ) is Some && made[j] == step_for(all, made[j].name) by {
            assert(made[j] == plan[j]@);
            assert(g.contains_key(names[j]));
            lemma_latest_exists(all, names[j]);
        }
    }
    Ok(plan)
}

/// Takes a step: registers the plugin as pending. For an eager plugin it hands out the
/// command that loads it; a lazy one stays pending until one of its triggers fires.
pub fn begin_step(state: &mut State, step: &LoadStep, platform: Platform) -> (command: Option<
    String,
>)
    ensures
        final(state)@ == old(state)@.insert(step@.name, StatusModel::Pending),
        match command {
            Some(command) => !step@.lazy && is_require_command(
                command@,
                step@.name,
                step@.path,
                platform,
            ),
            None => step@.lazy,
        },
        command is None <==> step.lazy,
{
    state.register(step.name.as_str());
    if step.lazy {
        return None;
    }
    Some(lua_require_command(step.name.as_str(), step.path.as_str(), platform))
}

/// Load a single plugin by calling Lua's `require()` on its module name via Neovim's
/// `:lua` ex-command: says what Neovim's answer to [`lua_require_command`] means.
///
/// Before calling require, that command adds the plugin's cdylib path to Lua's
/// `package.cpath` so Neovim can find it.
pub fn load_one(name: &str, reply: Result<(), String>) -> (loaded: Result<(), LoadError>)
    ensures
        match reply {
            Ok(()) => loaded is Ok,
            Err(why) => loaded matches Err(LoadError::Load { name: named, reason }) && named@
                == name@ && reason@ == why@,
        },
{
    match reply {
        Ok(()) => Ok(()),
        Err(reason) => Err(LoadError::Load { name: name.to_owned(), reason }),
    }
}

/// The status of a plugin after Neovim's answer to the command that loads it.
pub open spec fn status_after(
    name: Seq<char>,
    reply: Result<(), String>,
    load_time: nat,
) -> StatusModel {
    match reply {
        Ok(()) => StatusModel::Loaded { load_time },
        Err(reason) => StatusModel::Errored { message: load_failure(name, reason@) },
    }
}

/// Books Neovim's answer to the command that loads a plugin, and how long it took.
pub fn finish_load(
    state: &mut State,
    name: &str,
    reply: Result<(), String>,
    load_time: LoadTime,
) -> (loaded: Result<(), LoadError>)
    ensures
        final(state)@ == state::with_status(
            old(state)@,
            name@,
            status_after(name@, reply, load_time@),
        ),
        !old(state)@.contains_key(name@) ==> final(state)@ == old(state)@,
        old(state)@.contains_key(name@) ==> final(state)@ == old(state)@.insert(
            name@,
            match reply {
                Ok(()) => StatusModel::Loaded { load_time: load_time@ },
                Err(why) => StatusModel::Errored {
                    message: "failed to load plugin '"@ + name@ + "': "@ + why@,
                },
            },
        ),
        match reply {
            Ok(()) => loaded is Ok,
            Err(why) => loaded matches Err(LoadError::Load { name: named, reason }) && named@
                == name@ && reason@ == why@,
        },
{
    match load_one(name, reply) {
        Ok(()) => {
            state.mark_loaded(name, load_time);
            Ok(())
        },
        Err(error) => {
            let message = error.to_string();
            state.mark_errored(name, message.as_str());
            Err(error)
        },
    }
}

/// The plugin is tracked, and it is loaded.
pub open spec fn is_loaded(m: Map<Seq<char>, StatusModel>, name: Seq<char>) -> bool {
    m.contains_key(name) && m[name] is Loaded
}

/// Load a single plugin by name (used when a lazy trigger fires): hands out the command
/// that loads it, for [`finish_load`] to book the answer, or nothing if the plugin is
/// loaded already. A disabled plugin is skipped.
pub fn load_lazy(wanted: &PluginSpec, state: &State, platform: Platform) -> (command: Option<
    String,
>)
    ensures
        match command {
            Some(command) => wanted@.enabled && !is_loaded(state@, wanted@.name)
                && is_require_command(command@, wanted@.name, wanted@.path, platform),
            None => !wanted@.enabled || is_loaded(state@, wanted@.name),
        },
        command is None <==> !wanted.enabled || (state@.contains_key(wanted.name@)
            && state@[wanted.name@] is Loaded),
{
    if !wanted.enabled {
        return None;
    }
    if let Some(entry) = state.get(wanted.name.as_str()) {
        if let PluginStatus::Loaded { .. } = &entry.status {
            return None;
        }
    }
    Some(lua_require_command(wanted.name.as_str(), wanted.path.as_str(), platform))
}

/// The command that makes Lua forget a module, in words.
pub open spec fn unload_words(name: Seq<char>) -> Seq<char> {
    "lua package.loaded[\""@ + name + "\"] = nil"@
}

/// The command that clears a plugin's Lua module from `package.loaded`.
/// This allows a subsequent `require()` to reload it from disk.
pub fn unload_command(name: &str) -> (command: String)
    ensures
        command@ == unload_words(name@),
{
    let mut command = "lua package.loaded[\"".to_owned();
    command.append(name);
    command.append("\"] = nil");
    command
}

/// Unload a plugin: books Neovim's answer to [`unload_command`]. Unless that failed, the
/// plugin is pending again.
pub fn unload(state: &mut State, name: &str, reply: Result<(), String>) -> (unloaded: Result<
    (),
    LoadError,
>)
    ensures
        match reply {
            Ok(()) => unloaded is Ok && final(state)@ == state::with_status(
                old(state)@,
                name@,
                StatusModel::Pending,
            ),
            Err(why) => final(state)@ == old(state)@ && (unloaded matches Err(
                LoadError::Load { name: named, reason },
            ) && named@ == name@ && reason@ == "unload failed: "@ + why@),
        },
{
    match reply {
        Ok(()) => {
            state.reset(name);
            Ok(())
        },
        Err(why) => {
            let mut reason = "unload failed: ".to_owned();
            reason.append(why.as_str());
            Err(LoadError::Load { name: name.to_owned(), reason })
        },
    }
}

/// The first line of a status report, in words.
pub open spec fn summary_words(
    loaded: nat,
    pending: nat,
    errored: nat,
    total: Seq<char>,
) -> Seq<char> {
    "Shikake: "@ + text::decimal(loaded) + " loaded, "@ + text::decimal(pending) + " pending, "@
        + text::decimal(errored) + " errored (total: "@ + total + ")"@
}

/// The first line of a status report, with `total` for the total load time.
pub fn summary_line(counts: &StatusCounts, total: &str) -> (line: String)
    ensures
        line@ == summary_words(
            counts.loaded as nat,
            counts.pending as nat,
            counts.errored as nat,
            total@,
        ),
{
    let mut line = "Shikake: ".to_owned();
    line.append(text::number(counts.loaded).as_str());
    line.append(" loaded, ");
    line.append(text::number(counts.pending).as_str());
    line.append(" pending, ");
    line.append(text::number(counts.errored).as_str());
    line.append(" errored (total: ");
    line.append(total);
    line.append(")");
    line
}

/// The mark of a status.
pub open spec fn icon(status: StatusModel) -> Seq<char> {
    match status {
        StatusModel::Loaded { .. } => "  *"@,
        StatusModel::Pending => "  o"@,
        StatusModel::Errored { .. } => "  x"@,
    }
}

/// The line on a plugin, with `words` for its status.
pub open spec fn entry_words(name: Seq<char>, status: StatusModel, words: Seq<char>) -> Seq<char> {
    icon(status) + " "@ + name + " -- "@ + words
}

/// The line on a plugin in a status report, with `words` for its status.
pub fn entry_line(entry: &PluginEntry, words: &str) -> (line: String)
    ensures
        line@ == entry_words(entry.name@, entry.status@, words@),
{
    let mut line = match &entry.status {
        PluginStatus::Loaded { .. } => "  *".to_owned(),
        PluginStatus::Pending => "  o".to_owned(),
        PluginStatus::Errored { .. } => "  x".to_owned(),
    };
    line.append(" ");
    line.append(entry.name.as_str());
    line.append(" -- ");
    line.append(words);
    line
}

/// The lines of a status report: a summary, and a line on each plugin, by name.
pub open spec fn report_lines(m: Map<Seq<char>, StatusModel>) -> Seq<Seq<char>> {
    seq![
        summary_words(
            state::count(m, |s: StatusModel| s is Loaded),
            state::count(m, |s: StatusModel| s is Pending),
            state::count(m, |s: StatusModel| s is Errored),
            load_time::words(state::total_time(m)),
        ),
    ] + state::listing(m).map_values(|name: Seq<char>| entry_words(name, m[name], m[name].words()))
}

/// Format the status output for `:ShikakeStatus`. The total load time has to be one
/// that a [`LoadTime`] can hold.
#[must_use]
pub fn format_status(state: &State) -> (report: String)
    requires
        state::total_time(state@) < load_time::limit(),
    ensures
        report@ == text::joined(report_lines(state@), "\n"@),
{
    let counts = state.counts();
    let total = state.total_load_time();
    let total_words = total.to_string();
    let mut lines: Vec<String> = Vec::new();
    lines.push(summary_line(&counts, total_words.as_str()));
    let entries = state.all_sorted();
    let ghost names = entries@.map_values(|e: &PluginEntry| e.name@);
    proof {
        let m = state@;
        assert(text::lists_in_order(names, m.dom()));
        text::law_listing_is_unique(state::listing(m), names, m.dom());
    }
    let mut i: usize = 0;
    while i < entries.len()
        invariant
            i <= entries.len(),
            names == entries@.map_values(|e: &PluginEntry| e.name@),
            names == state::listing(state@),
            forall|j: int|
                0 <= j < entries.len() ==> (#[trigger] entries[j]).status@
                    == state@[entries[j].name@],
            lines.len() == i + 1,
            forall|j: int| 0 <= j <= i ==> (#[trigger] lines[j])@ == report_lines(state@)[j],
        decreases entries.len() - i,
    {
        let entry: &PluginEntry = entries[i];
        let words = entry.status.to_string();
        lines.push(entry_line(entry, words.as_str()));
        proof {
            assert(names[i as int] == entry.name@);
            assert(entries[i as int].status@ == state@[entry.name@]);
        }
        i += 1;
    }
    assert(text::texts(lines@) =~= report_lines(state@));
    text::join(&lines, "\n")
}

/// The table after a step of a plan: the plugin is pending, or, if it is eager, has the
/// status that came of loading it.
pub open spec fn after_step(
    m: Map<Seq<char>, StatusModel>,
    step: StepModel,
    outcome: StatusModel,
) -> Map<Seq<char>, StatusModel> {
    let begun = m.insert(step.name, StatusModel::Pending);
    if step.lazy {
        begun
    } else {
        state::with_status(begun, step.name, outcome)
    }
}

/// The table after all steps of a plan; `outcomes` says what came of each.
pub open spec fn after_plan(
    m: Map<Seq<char>, StatusModel>,
    plan: Seq<StepModel>,
    outcomes: Seq<StatusModel>,
) -> Map<Seq<char>, StatusModel>
    decreases plan.len(),
{
    if plan.len() == 0 {
        m
    } else {
        after_step(
            after_plan(m, plan.drop_last(), outcomes),
            plan.last(),
            outcomes[plan.len() - 1],
        )
    }
}

proof fn lemma_plan_leaves_others(
    m: Map<Seq<char>, StatusModel>,
    plan: Seq<StepModel>,
    outcomes: Seq<StatusModel>,
    name: Seq<char>,
)
    requires
        forall|i: int| 0 <= i < plan.len() ==> (#[trigger] plan[i]).name != name,
    ensures
        after_plan(m, plan, outcomes).contains_key(name) == m.contains_key(name),
        after_plan(m, plan, outcomes)[name] == m[name],
    decreases plan.len(),
{
    if plan.len() > 0 {
        let rest = plan.drop_last();
        assert forall|i: int| 0 <= i < rest.len() implies (#[trigger] rest[i]).name != name by {
            assert(rest[i] == plan[i]);
        }
        lemma_plan_leaves_others(m, rest, outcomes, name);
        assert(plan[plan.len() - 1].name != name);
    }
}

proof fn lemma_plan_settles(
    m: Map<Seq<char>, StatusModel>,
    plan: Seq<StepModel>,
    outcomes: Seq<StatusModel>,
    i: int,
)
    requires
        forall|a: int, b: int|
            0 <= a < b < plan.len() ==> (#[trigger] plan[a]).name != (#[trigger] plan[b]).name,
        0 <= i < plan.len(),
    ensures
        after_plan(m, plan, outcomes).contains_key(plan[i].name),
        after_plan(m, plan, outcomes)[plan[i].name] == if plan[i].lazy {
            StatusModel::Pending
        } else {
            outcomes[i]
        },
    decreases plan.len(),
{
    let last = plan.len() - 1;
    if i < last {
        let rest = plan.drop_last();
        assert forall|a: int, b: int| 0 <= a < b < rest.len() implies (#[trigger] rest[a]).name != (
        #[trigger] rest[b]).name by {
            assert(plan[a].name != plan[b].name);
        }
        lemma_plan_settles(m, rest, outcomes, i);
        assert(plan[i].name != plan[last].name);
    }
}

/// After a plan has been gone through, every plugin that takes part is tracked. A lazy
/// one is pending, and an eager one has the status that came of loading it.
pub proof fn law_plan_settles_every_plugin(
    specs: Seq<PluginModel>,
    plan: Seq<StepModel>,
    m: Map<Seq<char>, StatusModel>,
    outcomes: Seq<StatusModel>,
    i: int,
)
    requires
        is_plan(specs, plan),
        0 <= i < plan.len(),
    ensures
        after_plan(m, plan, outcomes).contains_key(plan[i].name),
        after_plan(m, plan, outcomes)[plan[i].name] == if plan[i].lazy {
            StatusModel::Pending
        } else {
            outcomes[i]
        },
{
    let names = plan.map_values(|step: StepModel| step.name);
    assert forall|a: int, b: int| 0 <= a < b < plan.len() implies (#[trigger] plan[a]).name != (
    #[trigger] plan[b]).name by {
        assert(names[a] != names[b]);
    }
    lemma_plan_settles(m, plan, outcomes, i);
}

/// A plan leaves alone whoever takes no part, the disabled plugins among them.
pub proof fn law_plan_leaves_others_alone(
    specs: Seq<PluginModel>,
    plan: Seq<StepModel>,
    m: Map<Seq<char>, StatusModel>,
    outcomes: Seq<StatusModel>,
    name: Seq<char>,
)
    requires
        is_plan(specs, plan),
        !graph::graph(specs).contains_key(name),
    ensures
        after_plan(m, plan, outcomes).contains_key(name) == m.contains_key(name),
        after_plan(m, plan, outcomes)[name] == m[name],
{
    let names = plan.map_values(|step: StepModel| step.name);
    assert forall|i: int| 0 <= i < plan.len() implies (#[trigger] plan[i]).name != name by {
        assert(names[i] == plan[i].name);
        assert(names.contains(names[i]));
    }
    lemma_plan_leaves_others(m, plan, outcomes, name);
}

/// Disabled plugins are skipped entirely: the specification that a step goes by is
/// enabled, and it is the one whose dependencies have been looked at.
pub proof fn law_steps_go_by_enabled_specs(specs: Seq<PluginModel>, name: Seq<char>)
    requires
        graph::graph(specs).contains_key(name),
    ensures
        latest(specs, name) matches Some(chosen) && chosen.enabled && chosen.name == name
            && chosen.dependencies == graph::graph(specs)[name],
    decreases specs.len(),
{
    if !(specs.last().enabled && specs.last().name == name) {
        law_steps_go_by_enabled_specs(specs.drop_last(), name);
    }
}

/// A tracked plugin that has loaded is not loaded again when a trigger fires, until it
/// is unloaded. One that failed to load is tried again, and so is one that is not
/// tracked.
pub proof fn law_lazy_plugin_loads_once(
    m: Map<Seq<char>, StatusModel>,
    name: Seq<char>,
    reply: Result<(), String>,
    load_time: nat,
)
    ensures
        is_loaded(state::with_status(m, name, status_after(name, reply, load_time)), name) == (
        m.contains_key(name) && reply is Ok),
        !is_loaded(state::with_status(m, name, StatusModel::Pending), name),
{
}

/// What becomes of a plugin that is tracked when loading it is over: it is loaded, with the
/// time that took, or it is errored, with the whole reason, whatever that is.
pub proof fn law_outcome_of_loading(name: Seq<char>, why: String, load_time: nat)
    ensures
        status_after(name, Ok(()), load_time) == (StatusModel::Loaded { load_time }),
        status_after(name, Err(why), load_time) == (StatusModel::Errored {
            message: "failed to load plugin '"@ + name + "': "@ + why@,
        }),
{
}

/// How each error reads.
pub proof fn law_load_errors_in_words(error: ResolveError, name: String, reason: String)
    ensures
        LoadError::Resolve(error).message() == "dependency resolution failed: "@ + error.message(),
        (LoadError::Load { name, reason }).message() == "failed to load plugin '"@ + name@ + "': "@
            + reason@,
        LoadError::DirNotFound(name).message() == "plugin directory does not exist: "@ + name@,
        LoadError::Io(reason).message() == "io error: "@ + reason@,
{
}

/// A plugin counts as loaded if it is tracked and has loaded, and in no other case.
pub proof fn law_loaded_plugins(
    m: Map<Seq<char>, StatusModel>,
    name: Seq<char>,
    load_time: nat,
    message: Seq<char>,
)
    ensures
        is_loaded(m.insert(name, StatusModel::Loaded { load_time }), name),
        !is_loaded(m.insert(name, StatusModel::Pending), name),
        !is_loaded(m.insert(name, StatusModel::Errored { message }), name),
        !is_loaded(m.remove(name), name),
{
}

/// The model of a step holds all that the step says, and steps are modelled one by one.
pub proof fn law_step_models(plan: Seq<LoadStep>, i: int)
    requires
        0 <= i < plan.len(),
    ensures
        steps(plan).len() == plan.len(),
        steps(plan)[i].name == plan[i].name@,
        steps(plan)[i].path == plan[i].path@,
        steps(plan)[i].lazy == plan[i].lazy,
{
}

/// Each step of a plan does what an enabled specification says, the last one of its name:
/// it has the path that stands there, and it is lazy if and only if any trigger stands
/// there.
pub proof fn law_steps_do_as_specified(
    specs: Seq<PluginModel>,
    plan: Seq<StepModel>,
    q: int,
) -> (i: int)
    requires
        is_plan(specs, plan),
        0 <= q < plan.len(),
    ensures
        0 <= i < specs.len(),
        specs[i].enabled,
        specs[i].name == plan[q].name,
        forall|j: int|
            i < j < specs.len() && (#[trigger] specs[j]).enabled ==> specs[j].name != plan[q].name,
        plan[q].path == specs[i].path,
        plan[q].lazy <==> specs[i].lazy.len() > 0,
{
    lemma_latest_is_last(specs, plan[q].name)
}

proof fn lemma_latest_is_last(specs: Seq<PluginModel>, name: Seq<char>) -> (i: int)
    requires
        latest(specs, name) is Some,
    ensures
        0 <= i < specs.len(),
        specs[i].enabled,
        specs[i].name == name,
        latest(specs, name) == Some(specs[i]),
        forall|j: int|
            i < j < specs.len() && (#[trigger] specs[j]).enabled ==> specs[j].name != name,
    decreases specs.len(),
{
    let last = specs.len() - 1;
    if specs[last].enabled && specs[last].name == name {
        last
    } else {
        let rest = specs.drop_last();
        let i = lemma_latest_is_last(rest, name);
        assert forall|j: int| i < j < specs.len() && (#[trigger] specs[j]).enabled implies specs[j].name
            != name by {
            if j < last {
                assert(rest[j].enabled);
            }
        }
        i
    }
}

/// A plan goes through the load order, name by name.
pub proof fn law_plan_goes_through_the_load_order(
    specs: Seq<PluginModel>,
    plan: Seq<StepModel>,
    order: Vec<String>,
)
    requires
        is_plan(specs, plan),
        resolve::resolves_to(graph::graph(specs), Ok(order)),
    ensures
        plan.len() == order@.len(),
        forall|q: int| 0 <= q < plan.len() ==> (#[trigger] plan[q]).name == order@[q]@,
{
    let names = plan.map_values(|step: StepModel| step.name);
    graph::law_load_order_is_unique(graph::graph(specs), names, text::texts(order@));
    assert forall|q: int| 0 <= q < plan.len() implies (#[trigger] plan[q]).name == order@[q]@ by {
        assert(names[q] == text::texts(order@)[q]);
    }
}

/// There is a plan exactly where there is a load order: the names of a plan resolve the
/// specifications.
pub proof fn law_plan_names_resolve(
    specs: Seq<PluginModel>,
    plan: Seq<StepModel>,
    order: Result<Vec<String>, ResolveError>,
)
    requires
        is_plan(specs, plan),
        resolve::resolves_to(graph::graph(specs), order),
    ensures
        order is Ok,
{
    let g = graph::graph(specs);
    let names = plan.map_values(|step: StepModel| step.name);
    graph::law_order_needs_complete_and_acyclic(g, names);
    resolve::law_outcome(g, order);
    assert forall|name: Seq<char>| !graph::leads_to_cycle(g, name) by {
        assert(!graph::held_up(g).contains(name));
    }
}

/// For an ordinary path, with the file behind the last slash, the command looks in the
/// directory that stands before it.
pub proof fn law_command_looks_in_the_directory(
    command: Seq<char>,
    name: Seq<char>,
    dir: Seq<char>,
    file: Seq<char>,
    platform: Platform,
)
    requires
        is_require_command(command, name, dir + "/"@ + file, platform),
        dir.len() > 0,
        dir.last() != '/',
        dir.len() > 1 ==> !(dir.last() == '.' && dir[dir.len() - 2] == '/'),
        dir.len() > 1 ==> !(dir[0] == '/' && dir[1] == '/'),
        file.len() > 0,
        file != "."@,
        !file.contains('/'),
        !(dir + "/"@ + file).contains('\\'),
        !(dir + "/"@ + file).contains(':'),
    ensures
        command == require_words(name, dir + "/"@ + file, dir, platform),
{
    reveal_strlit("/");
    let path = dir + "/"@ + file;
    assert forall|i: int| 0 <= i < path.len() implies #[trigger] path[i] != '\\' && path[i]
        != ':' by {
        assert(path.contains(path[i]));
    }
    assert(search::is_slash_path(path));
    search::law_directory_of_a_path(dir, file);
}

/// The words of the command. Where the template for the directory is the plugin's own, or
/// the plugin has none, that one is added; where it has another, that is added before it.
/// A plugin without a directory is looked for in `.`.
pub proof fn law_command_in_words(
    name: Seq<char>,
    path: Seq<char>,
    dir: Seq<char>,
    platform: Platform,
    template: Seq<char>,
)
    ensures
        search_dir(Some(dir)) == dir,
        search_dir(None) == "."@,
        search::own_template(name, path, platform) is None || search::own_template(
            name,
            path,
            platform,
        ) == Some(search::usual_template(dir, platform)) ==> require_words(name, path, dir, platform)
            == "lua do local "@ + "e = \""@ + search::quoted(
            search::usual_template(dir, platform),
        ) + "\" if not "@
            + "package.cpath:find(e, 1, true) then package.cpath = package.cpath .. \";\" .. e end "@
            + "require(\""@ + name + "\") end"@,
        search::own_template(name, path, platform) == Some(template) && template
            != search::usual_template(dir, platform) ==> require_words(name, path, dir, platform)
            == "lua do local "@ + "e = \""@ + search::quoted(template) + "\" if not "@
            + "(\";\" .. package.cpath .. \";\"):find(\";\" .. e .. \";\", 1, true) then package.cpath = package.cpath .. \";\" .. e end "@
            + "e = \""@ + search::quoted(search::usual_template(dir, platform)) + "\" if not "@
            + "package.cpath:find(e, 1, true) then package.cpath = package.cpath .. \";\" .. e end "@
            + "require(\""@ + name + "\") end"@,
{
    let none = Seq::<char>::empty();
    let start = "lua do local "@;
    let (opening, closing) = ("e = \""@, "\" if not "@);
    let usual = search::quoted(search::usual_template(dir, platform));
    let test =
        "package.cpath:find(e, 1, true) then package.cpath = package.cpath .. \";\" .. e end "@;
    let own_test =
        "(\";\" .. package.cpath .. \";\"):find(\";\" .. e .. \";\", 1, true) then package.cpath = package.cpath .. \";\" .. e end "@;
    assert(start + none =~= start);
    lemma_flattened(start, opening, usual, closing, test);
    let own = search::quoted(template);
    lemma_flattened(start, opening, own, closing, own_test);
    lemma_flattened(start + own_search(template), opening, usual, closing, test);
}

proof fn lemma_flattened(
    start: Seq<char>,
    opening: Seq<char>,
    literal: Seq<char>,
    closing: Seq<char>,
    test: Seq<char>,
)
    ensures
        start + (opening + literal + closing + test) == start + opening + literal + closing + test,
{
    assert(start + (opening + literal + closing + test) =~= start + opening + literal + closing
        + test);
}

/// The path of a plugin that is called as its platform has it is an ordinary one.
proof fn lemma_usual_path(name: Seq<char>, dir: Seq<char>, platform: Platform)
    requires
        !(dir + name).contains('\\'),
        !(dir + name).contains(':'),
        !name.contains('/'),
    ensures
        !(dir + "/"@ + (name + "."@ + platform.extension())).contains('\\'),
        !(dir + "/"@ + (name + "."@ + platform.extension())).contains(':'),
        !(name + "."@ + platform.extension()).contains('/'),
        (name + "."@ + platform.extension()).len() > 1,
        forall|i: int| 0 <= i < name.len() ==> !platform.separates(#[trigger] name[i]),
        forall|i: int|
            0 <= i < platform.extension().len() ==> !platform.separates(
                #[trigger] platform.extension()[i],
            ),
{
    reveal_strlit("/");
    reveal_strlit(".");
    reveal_strlit("so");
    reveal_strlit("dll");
    reveal_strlit("dylib");
    let file = name + "."@ + platform.extension();
    let path = dir + "/"@ + file;
    assert forall|c: char| c == '\\' || c == ':' implies !path.contains(c) by {
        if path.contains(c) {
            let i = choose|i: int| 0 <= i < path.len() && path[i] == c;
            if i < dir.len() {
                assert((dir + name)[i] == c);
            } else if dir.len() < i <= dir.len() + name.len() {
                assert((dir + name)[i - 1] == c);
            }
        }
    }
    if file.contains('/') {
        let i = choose|i: int| 0 <= i < file.len() && file[i] == '/';
        if i < name.len() {
            assert(name[i] == '/');
        }
    }
    assert forall|i: int| 0 <= i < name.len() implies !platform.separates(#[trigger] name[i]) by {
        assert(name.contains(name[i]));
        assert((dir + name)[dir.len() + i] == name[i]);
    }
}

/// The usual template for a directory that needs no escapes needs none.
proof fn lemma_usual_literal(dir: Seq<char>, platform: Platform)
    requires
        !dir.contains('\\'),
        !dir.contains('"'),
        !dir.contains('\n'),
        !dir.contains('\r'),
    ensures
        search::quoted(search::usual_template(dir, platform)) == search::usual_template(
            dir,
            platform,
        ),
{
    reveal_strlit("/?.");
    reveal_strlit("so");
    reveal_strlit("dll");
    reveal_strlit("dylib");
    let usual = search::usual_template(dir, platform);
    assert forall|c: char|
        c == '\\' || c == '"' || c == '\n' || c == '\r' implies !usual.contains(c) by {
        if usual.contains(c) {
            let i = choose|i: int| 0 <= i < usual.len() && usual[i] == c;
            if i < dir.len() {
                assert(dir[i] == c);
            }
        }
    }
    search::law_ordinary_text_stays(usual);
}

/// For a plugin that is called as its platform has it, the command is the one that adds its
/// directory, and nothing else.
pub proof fn law_command_for_the_usual_file(
    command: Seq<char>,
    name: Seq<char>,
    dir: Seq<char>,
    platform: Platform,
)
    requires
        is_require_command(
            command,
            name,
            dir + "/"@ + (name + "."@ + platform.extension()),
            platform,
        ),
        dir.len() > 0,
        dir.last() != '/',
        dir.len() > 1 ==> !(dir.last() == '.' && dir[dir.len() - 2] == '/'),
        dir.len() > 1 ==> !(dir[0] == '/' && dir[1] == '/'),
        !(dir + name).contains('\\'),
        !(dir + name).contains(':'),
        !dir.contains('"'),
        !dir.contains('\n'),
        !dir.contains('\r'),
        !name.contains('/'),
    ensures
        command == "lua do local "@ + "e = \""@ + (dir + "/?."@ + platform.extension())
            + "\" if not "@
            + "package.cpath:find(e, 1, true) then package.cpath = package.cpath .. \";\" .. e end "@
            + "require(\""@ + name + "\") end"@,
{
    let extension = platform.extension();
    let file = name + "."@ + extension;
    let usual = search::usual_template(dir, platform);
    lemma_usual_path(name, dir, platform);
    assert(file != "."@) by {
        reveal_strlit(".");
    }
    law_command_looks_in_the_directory(command, name, dir, file, platform);
    let folder = dir + "/"@;
    assert(folder.len() > 0 && folder.last() == '/') by {
        reveal_strlit("/");
    }
    search::law_template_of_a_file(folder, name, extension, platform);
    assert(folder + ("?."@ + extension) =~= usual) by {
        reveal_strlit("/");
        reveal_strlit("?.");
        reveal_strlit("/?.");
    }
    assert(!dir.contains('\\')) by {
        if dir.contains('\\') {
            let i = choose|i: int| 0 <= i < dir.len() && dir[i] == '\\';
            assert((dir + name)[i] == '\\');
        }
    }
    lemma_usual_literal(dir, platform);
    law_command_in_words(name, folder + file, dir, platform, usual);
}

/// How a plugin is unloaded.
pub proof fn law_unload_in_words(name: Seq<char>)
    ensures
        unload_words(name) == "lua package.loaded[\""@ + name + "\"] = nil"@,
{
}

/// What a report says: first how many plugins are loaded, pending and errored, and how long
/// loading took in all; then, line by line, each plugin by name, with the mark of its status
/// and the status in words.
pub proof fn law_report_in_words(m: Map<Seq<char>, StatusModel>)
    ensures
        report_lines(m).len() == state::listing(m).len() + 1,
        report_lines(m)[0] == "Shikake: "@ + text::decimal(
            state::count(m, |s: StatusModel| s is Loaded),
        ) + " loaded, "@ + text::decimal(state::count(m, |s: StatusModel| s is Pending))
            + " pending, "@ + text::decimal(state::count(m, |s: StatusModel| s is Errored))
            + " errored (total: "@ + load_time::words(state::total_time(m)) + ")"@,
        forall|i: int|
            0 <= i < state::listing(m).len() ==> #[trigger] report_lines(m)[i + 1] == (
            match m[state::listing(m)[i]] {
                StatusModel::Loaded { .. } => "  *"@,
                StatusModel::Pending => "  o"@,
                StatusModel::Errored { .. } => "  x"@,
            }) + " "@ + state::listing(m)[i] + " -- "@ + m[state::listing(m)[i]].words(),
{
}

} // verus!
