//! Reloading a plugin, for development: `:ShikakeReload <name>`.
//!
//! Neovim is asked to forget the plugin's module, and then to require it again.

use vstd::prelude::*;

use crate::load_time;
use crate::load_time::LoadTime;
use crate::loader;
use crate::plugin;
use crate::state;
use crate::state::State;
use crate::state::StatusModel;
use crate::text;

verus! {

/// How a reload starts.
#[derive(Debug, Clone, PartialEq, Eq)]
pub enum Reload {
    /// Not at all: there is this to complain of.
    Refused { complaint: String },
    /// By unloading the plugin with this command.
    Unload { name: String, command: String },
}

/// The argument of the command: what was typed, without white space around it.
pub open spec fn wanted_name(args: Option<Seq<char>>) -> Seq<char> {
    match args {
        Some(args) => text::trimmed(args),
        None => Seq::empty(),
    }
}

/// Starts a reload of the plugin that `args` names. A plugin has to be named, and it
/// has to be tracked.
pub fn reload(args: Option<&str>, state: &State) -> (start: Reload)
    ensures
        ({
            let wanted = wanted_name(plugin::optional_slice(args));
            match start {
                Reload::Refused { complaint } => {
                    ||| wanted.len() == 0 && complaint@ == "ShikakeReload requires a plugin name"@
                    ||| wanted.len() > 0 && !state@.contains_key(wanted) && complaint@
                        == "shikake: unknown plugin '"@ + wanted + "'"@
                },
                Reload::Unload { name, command } => {
                    &&& wanted.len() > 0
                    &&& state@.contains_key(wanted)
                    &&& name@ == wanted
                    &&& command@ == loader::unload_words(wanted)
                },
            }
        }),
{
    let typed: &str = match args {
        Some(args) => args,
        None => "",
    };
    proof {
        reveal_strlit("");
        assert(""@ =~= Seq::empty());
    }
    let name = text::trim(typed);
    if name.is_empty() {
        return Reload::Refused { complaint: "ShikakeReload requires a plugin name".to_owned() };
    }
    if state.get(name).is_none() {
        let mut complaint = "shikake: unknown plugin '".to_owned();
        complaint.append(name);
        complaint.append("'");
        return Reload::Refused { complaint };
    }
    Reload::Unload { name: name.to_owned(), command: loader::unload_command(name) }
}

/// The command that requires a module that Lua knows where to find, in words.
pub open spec fn require_again_words(name: Seq<char>) -> Seq<char> {
    "lua require(\""@ + name + "\")"@
}

/// Goes on with a reload, after Neovim's answer to the command that unloads the plugin:
/// hands out the command that requires it again, or what there is to complain of.
///
/// Lua's `package.cpath` should already be set from the initial load.
pub fn reload_unloaded(state: &mut State, name: &str, reply: Result<(), String>) -> (next: Result<
    String,
    String,
>)
    ensures
        match reply {
            Ok(()) => final(state)@ == state::with_status(
                old(state)@,
                name@,
                StatusModel::Pending,
            ) && (next matches Ok(command) && command@ == require_again_words(name@)),
            Err(why) => final(state)@ == old(state)@ && (next matches Err(complaint) && complaint@
                == "shikake: unload failed: "@ + loader::load_failure(
                name@,
                "unload failed: "@ + why@,
            )),
        },
{
    match loader::unload(state, name, reply) {
        Ok(()) => {
            let mut command = "lua require(\"".to_owned();
            command.append(name);
            command.append("\")");
            Ok(command)
        },
        Err(error) => {
            let mut complaint = "shikake: unload failed: ".to_owned();
            let cause = error.to_string();
            complaint.append(cause.as_str());
            Err(complaint)
        },
    }
}

/// A reload that succeeded, in words.
pub open spec fn reloaded_words(name: Seq<char>, time: Seq<char>) -> Seq<char> {
    "shikake: reloaded '"@ + name + "' ("@ + time + ")"@
}

/// Words a reload that succeeded, with `time` for how long it took.
pub fn reloaded_text(name: &str, time: &str) -> (message: String)
    ensures
        message@ == reloaded_words(name@, time@),
{
    let mut message = "shikake: reloaded '".to_owned();
    message.append(name);
    message.append("' (");
    message.append(time);
    message.append(")");
    message
}

/// The status of a plugin after Neovim's answer to the command that requires it again.
pub open spec fn status_after_reload(reply: Result<(), String>, load_time: nat) -> StatusModel {
    match reply {
        Ok(()) => StatusModel::Loaded { load_time },
        Err(why) => StatusModel::Errored { message: why@ },
    }
}

/// Finishes a reload, after Neovim's answer to the command that requires the plugin
/// again: books the answer, and hands out what there is to say, or to complain of.
pub fn reload_finished(
    state: &mut State,
    name: &str,
    reply: Result<(), String>,
    load_time: LoadTime,
) -> (message: Result<String, String>)
    ensures
        final(state)@ == state::with_status(
            old(state)@,
            name@,
            status_after_reload(reply, load_time@),
        ),
        match reply {
            Ok(()) => message matches Ok(message) && message@ == reloaded_words(
                name@,
                load_time::words(load_time@),
            ),
            Err(why) => message matches Err(complaint) && complaint@
                == "shikake: reload failed for '"@ + name@ + "': "@ + why@,
        },
{
    match reply {
        Ok(()) => {
            state.mark_loaded(name, load_time);
            let time = load_time.to_string();
            Ok(reloaded_text(name, time.as_str()))
        },
        Err(why) => {
            state.mark_errored(name, why.as_str());
            let mut complaint = "shikake: reload failed for '".to_owned();
            complaint.append(name);
            complaint.append("': ");
            complaint.append(why.as_str());
            Err(complaint)
        },
    }
}

/// Once it has been unloaded and required again, a tracked plugin has the status that
/// came of that, whatever it was before, and every other plugin keeps its own.
pub proof fn law_reload_replaces_the_status(
    m: Map<Seq<char>, StatusModel>,
    name: Seq<char>,
    reply: Result<(), String>,
    load_time: nat,
)
    requires
        m.contains_key(name),
    ensures
        state::with_status(
            state::with_status(m, name, StatusModel::Pending),
            name,
            status_after_reload(reply, load_time),
        ) == m.insert(name, status_after_reload(reply, load_time)),
{
    state::law_later_mark_counts(
        m,
        name,
        StatusModel::Pending,
        status_after_reload(reply, load_time),
    );
}

/// The plugin that is meant is what was typed, without the white space around it; nothing
/// was typed if there is no argument.
pub proof fn law_wanted_name(args: Seq<char>)
    ensures
        wanted_name(Some(args)) == text::trimmed(args),
        wanted_name(None).len() == 0,
{
}

/// How a reload goes on, and how it ends, in words.
pub proof fn law_reload_in_words(name: Seq<char>, time: Seq<char>)
    ensures
        require_again_words(name) == "lua require(\""@ + name + "\")"@,
        reloaded_words(name, time) == "shikake: reloaded '"@ + name + "' ("@ + time + ")"@,
{
}

/// What becomes of a plugin when reloading it is over: it is loaded, with the time that
/// took, or it is errored, with the very reason, whatever that is.
pub proof fn law_outcome_of_reloading(why: String, load_time: nat)
    ensures
        status_after_reload(Ok(()), load_time) == (StatusModel::Loaded { load_time }),
        status_after_reload(Err(why), load_time) == (StatusModel::Errored { message: why@ }),
{
}

} // verus!
