//! Plugin specifications: what a plugin is called, where its file is, what it
//! needs, and what makes it load.

use vstd::prelude::*;

use crate::text;
use crate::text::Named;

verus! {

/// Describes when a plugin should be lazily loaded.
#[derive(Debug, Clone, PartialEq, Eq)]
pub enum LazyTrigger {
    /// Load on a Neovim event, optionally scoped to a file pattern.
    /// Examples: `Event("BufEnter", None)`, `Event("FileType", Some("rust"))`.
    Event(String, Option<String>),
    /// Load when a user command is first invoked.
    Command(String),
    /// Load when a filetype is detected.
    Filetype(String),
    /// Load when a keymap is pressed (mode, lhs).
    Keymap(String, String),
}

/// Full specification for a single plugin.
#[derive(Debug, Clone)]
pub struct PluginSpec {
    /// Unique plugin name (typically the crate name, e.g. `"sakuin"`).
    pub name: String,
    /// Path to the compiled cdylib file, as text.
    pub path: String,
    /// If empty, the plugin loads eagerly at startup.
    pub lazy: Vec<LazyTrigger>,
    /// Names of plugins that must be loaded before this one.
    pub dependencies: Vec<String>,
    /// Whether this plugin is enabled. Disabled plugins are skipped entirely.
    pub enabled: bool,
}

/// What a [`LazyTrigger`] says.
#[verifier::ext_equal]
pub enum TriggerModel {
    Event { event: Seq<char>, pattern: Option<Seq<char>> },
    Command { command: Seq<char> },
    Filetype { filetype: Seq<char> },
    Keymap { mode: Seq<char>, lhs: Seq<char> },
}

/// What a [`PluginSpec`] says.
#[verifier::ext_equal]
pub struct PluginModel {
    pub name: Seq<char>,
    pub path: Seq<char>,
    pub lazy: Seq<TriggerModel>,
    pub dependencies: Seq<Seq<char>>,
    pub enabled: bool,
}

/// What an optional text says.
pub open spec fn optional_text(text: Option<String>) -> Option<Seq<char>> {
    match text {
        Some(text) => Some(text@),
        None => None,
    }
}

/// What an optional text slice says.
pub open spec fn optional_slice(text: Option<&str>) -> Option<Seq<char>> {
    match text {
        Some(text) => Some(text@),
        None => None,
    }
}

impl View for LazyTrigger {
    type V = TriggerModel;

    open spec fn view(&self) -> TriggerModel {
        match *self {
            LazyTrigger::Event(event, pattern) => TriggerModel::Event {
                event: event@,
                pattern: optional_text(pattern),
            },
            LazyTrigger::Command(command) => TriggerModel::Command { command: command@ },
            LazyTrigger::Filetype(filetype) => TriggerModel::Filetype { filetype: filetype@ },
            LazyTrigger::Keymap(mode, lhs) => TriggerModel::Keymap { mode: mode@, lhs: lhs@ },
        }
    }
}

impl View for PluginSpec {
    type V = PluginModel;

    open spec fn view(&self) -> PluginModel {
        PluginModel {
            name: self.name@,
            path: self.path@,
            lazy: self.lazy@.map_values(|t: LazyTrigger| t@),
            dependencies: text::texts(self.dependencies@),
            enabled: self.enabled,
        }
    }
}

/// What a list of specifications says.
pub open spec fn models(specs: Seq<PluginSpec>) -> Seq<PluginModel> {
    specs.map_values(|s: PluginSpec| s@)
}

impl TriggerModel {
    /// Whether the trigger fires on an event: the event is the trigger's own, and
    /// the trigger is scoped to no pattern or to the very pattern of the event.
    pub open spec fn fires_on_event(self, event: Seq<char>, pattern: Option<Seq<char>>) -> bool {
        self matches TriggerModel::Event { event: own, pattern: scope } && own == event && (
        scope is None || scope == pattern)
    }
}

impl PluginModel {
    /// A plugin that nothing triggers loads eagerly.
    pub open spec fn is_eager(self) -> bool {
        self.lazy.len() == 0
    }
}

impl<'a> Named for &'a PluginSpec {
    open spec fn called(&self) -> Seq<char> {
        self.name@
    }

    fn name(&self) -> (name: &str) {
        self.name.as_str()
    }
}

impl PluginSpec {
    /// Create a new plugin spec with the given name and path.
    /// Defaults to eager loading, no dependencies, and enabled.
    #[must_use]
    pub fn new(name: &str, path: &str) -> (spec: Self)
        ensures
            spec@ == (PluginModel {
                name: name@,
                path: path@,
                lazy: Seq::empty(),
                dependencies: Seq::empty(),
                enabled: true,
            }),
    {
        let spec = PluginSpec {
            name: name.to_owned(),
            path: path.to_owned(),
            lazy: Vec::new(),
            dependencies: Vec::new(),
            enabled: true,
        };
        assert(spec@.lazy =~= Seq::empty());
        assert(spec@.dependencies =~= Seq::empty());
        spec
    }

    /// Add a lazy trigger.
    #[must_use]
    pub fn on(self, trigger: LazyTrigger) -> (spec: Self)
        ensures
            spec@ == (PluginModel { lazy: self@.lazy.push(trigger@), ..self@ }),
    {
        let mut spec = self;
        spec.lazy.push(trigger);
        assert(spec@.lazy =~= self@.lazy.push(trigger@));
        spec
    }

    /// Add a dependency by name.
    #[must_use]
    pub fn depends_on(self, dep: &str) -> (spec: Self)
        ensures
            spec@ == (PluginModel { dependencies: self@.dependencies.push(dep@), ..self@ }),
    {
        let mut spec = self;
        spec.dependencies.push(dep.to_owned());
        assert(spec@.dependencies =~= self@.dependencies.push(dep@));
        spec
    }

    /// Disable this plugin.
    #[must_use]
    pub fn disabled(self) -> (spec: Self)
        ensures
            spec@ == (PluginModel { enabled: false, ..self@ }),
    {
        let mut spec = self;
        spec.enabled = false;
        spec
    }

    /// Whether this plugin should load lazily.
    #[must_use]
    pub fn is_lazy(&self) -> (lazy: bool)
        ensures
            lazy == !self@.is_eager(),
            lazy == (self.lazy@.len() > 0),
    {
        !self.lazy.is_empty()
    }

    /// Whether this plugin should load eagerly (at startup).
    #[must_use]
    pub fn is_eager(&self) -> (eager: bool)
        ensures
            eager == self@.is_eager(),
            eager == (self.lazy@.len() == 0),
    {
        self.lazy.is_empty()
    }

    /// Check whether a given event (name + optional pattern) matches any of
    /// this plugin's lazy triggers.
    #[must_use]
    pub fn matches_event(&self, event: &str, pattern: Option<&str>) -> (matches: bool)
        ensures
            matches == exists|i: int|
                0 <= i < self@.lazy.len() && (#[trigger] self@.lazy[i]).fires_on_event(
                    event@,
                    optional_slice(pattern),
                ),
            matches == (self@.lazy.contains(TriggerModel::Event { event: event@, pattern: None })
                || (pattern matches Some(pattern) && self@.lazy.contains(
                TriggerModel::Event { event: event@, pattern: Some(pattern@) },
            ))),
    {
        let mut i: usize = 0;
        while i < self.lazy.len()
            invariant
                i <= self.lazy.len(),
                forall|j: int|
                    0 <= j < i ==> !(#[trigger] self@.lazy[j]).fires_on_event(
                        event@,
                        optional_slice(pattern),
                    ),
            decreases self.lazy.len() - i,
        {
            assert(self@.lazy[i as int] == self.lazy[i as int]@);
            if let LazyTrigger::Event(own, scope) = &self.lazy[i] {
                if text::same_text(own.as_str(), event) {
                    let in_scope = match (scope, pattern) {
                        (None, _) => true,
                        (Some(a), Some(b)) => text::same_text(a.as_str(), b),
                        (Some(_), None) => false,
                    };
                    if in_scope {
                        return true;
                    }
                }
            }
            i += 1;
        }
        proof {
            let here = TriggerModel::Event { event: event@, pattern: None };
            assert(!self@.lazy.contains(here)) by {
                assert(here.fires_on_event(event@, optional_slice(pattern)));
            }
            if let Some(p) = pattern {
                let scoped = TriggerModel::Event { event: event@, pattern: Some(p@) };
                assert(scoped.fires_on_event(event@, optional_slice(pattern)));
            }
        }
        false
    }

    /// Check whether a command name matches any of this plugin's lazy triggers.
    #[must_use]
    pub fn matches_command(&self, cmd: &str) -> (matches: bool)
        ensures
            matches == self@.lazy.contains(TriggerModel::Command { command: cmd@ }),
    {
        let mut i: usize = 0;
        while i < self.lazy.len()
            invariant
                i <= self.lazy.len(),
                forall|j: int|
                    0 <= j < i ==> #[trigger] self@.lazy[j] != (TriggerModel::Command {
                        command: cmd@,
                    }),
            decreases self.lazy.len() - i,
        {
            assert(self@.lazy[i as int] == self.lazy[i as int]@);
            if let LazyTrigger::Command(own) = &self.lazy[i] {
                if text::same_text(own.as_str(), cmd) {
                    return true;
                }
            }
            i += 1;
        }
        false
    }

    /// Check whether a filetype matches any of this plugin's lazy triggers.
    #[must_use]
    pub fn matches_filetype(&self, ft: &str) -> (matches: bool)
        ensures
            matches == self@.lazy.contains(TriggerModel::Filetype { filetype: ft@ }),
    {
        let mut i: usize = 0;
        while i < self.lazy.len()
            invariant
                i <= self.lazy.len(),
                forall|j: int|
                    0 <= j < i ==> #[trigger] self@.lazy[j] != (TriggerModel::Filetype {
                        filetype: ft@,
                    }),
            decreases self.lazy.len() - i,
        {
            assert(self@.lazy[i as int] == self.lazy[i as int]@);
            if let LazyTrigger::Filetype(own) = &self.lazy[i] {
                if text::same_text(own.as_str(), ft) {
                    return true;
                }
            }
            i += 1;
        }
        false
    }

    /// Check whether a keymap (mode, lhs) matches any of this plugin's lazy triggers.
    #[must_use]
    pub fn matches_keymap(&self, mode: &str, lhs: &str) -> (matches: bool)
        ensures
            matches == self@.lazy.contains(TriggerModel::Keymap { mode: mode@, lhs: lhs@ }),
    {
        let mut i: usize = 0;
        while i < self.lazy.len()
            invariant
                i <= self.lazy.len(),
                forall|j: int|
                    0 <= j < i ==> #[trigger] self@.lazy[j] != (TriggerModel::Keymap {
                        mode: mode@,
                        lhs: lhs@,
                    }),
            decreases self.lazy.len() - i,
        {
            assert(self@.lazy[i as int] == self.lazy[i as int]@);
            if let LazyTrigger::Keymap(own_mode, own_lhs) = &self.lazy[i] {
                if text::same_text(own_mode.as_str(), mode) && text::same_text(
                    own_lhs.as_str(),
                    lhs,
                ) {
                    return true;
                }
            }
            i += 1;
        }
        false
    }
}

/// A plugin without triggers is eager. With a trigger more, whichever it is, a plugin is
/// not.
pub proof fn law_triggers_make_lazy(m: PluginModel, trigger: TriggerModel)
    ensures
        (PluginModel { lazy: Seq::empty(), ..m }).is_eager(),
        !(PluginModel { lazy: m.lazy.push(trigger), ..m }).is_eager(),
{
}

/// A trigger fires on an event if it is a trigger for the event of that very name, and is
/// scoped to no pattern, or to the very pattern that comes with the event. No other
/// trigger does.
pub proof fn law_event_triggers(trigger: TriggerModel, event: Seq<char>, pattern: Seq<char>)
    ensures
        trigger.fires_on_event(event, None) <==> trigger == (TriggerModel::Event {
            event,
            pattern: None,
        }),
        trigger.fires_on_event(event, Some(pattern)) <==> trigger == (TriggerModel::Event {
            event,
            pattern: None,
        }) || trigger == (TriggerModel::Event { event, pattern: Some(pattern) }),
{
}

/// The model of a trigger holds all that the trigger says, character for character.
pub proof fn law_trigger_models(a: String, b: String)
    ensures
        LazyTrigger::Event(a, None)@ == (TriggerModel::Event { event: a@, pattern: None }),
        LazyTrigger::Event(a, Some(b))@ == (TriggerModel::Event { event: a@, pattern: Some(b@) }),
        LazyTrigger::Command(a)@ == (TriggerModel::Command { command: a@ }),
        LazyTrigger::Filetype(a)@ == (TriggerModel::Filetype { filetype: a@ }),
        LazyTrigger::Keymap(a, b)@ == (TriggerModel::Keymap { mode: a@, lhs: b@ }),
{
}

/// The model of a specification holds all that the specification says, and lists are
/// modelled one by one.
pub proof fn law_spec_models(specs: Seq<PluginSpec>, i: int)
    requires
        0 <= i < specs.len(),
    ensures
        models(specs).len() == specs.len(),
        models(specs)[i].name == specs[i].name@,
        models(specs)[i].path == specs[i].path@,
        models(specs)[i].enabled == specs[i].enabled,
        models(specs)[i].lazy.len() == specs[i].lazy@.len(),
        forall|k: int|
            0 <= k < specs[i].lazy@.len() ==> #[trigger] models(specs)[i].lazy[k]
                == specs[i].lazy@[k]@,
        models(specs)[i].dependencies.len() == specs[i].dependencies@.len(),
        forall|k: int|
            0 <= k < specs[i].dependencies@.len() ==> #[trigger] models(specs)[i].dependencies[k]
                == specs[i].dependencies@[k]@,
{
}

/// Nothing is nothing, and something is what it says.
pub proof fn law_optional_texts(text: String, slice: &str)
    ensures
        optional_text(None) is None,
        optional_text(Some(text)) == Some(text@),
        optional_slice(None) is None,
        optional_slice(Some(slice)) == Some(slice@),
{
}

} // verus!
