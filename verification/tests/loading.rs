//! Discovery, loading, reporting, and reloading.

use shikake::discover::{discover_plugins, plugin_name, DirEntry, Listing};
use shikake::load_time::LoadTime;
use shikake::loader::{
    begin_step, entry_line, finish_load, format_status, load_eager, load_lazy, load_one,
    lua_require_command, lua_require_command_in, summary_line, unload, unload_command, LoadError,
};
use shikake::plugin::{LazyTrigger, PluginSpec};
use shikake::reload::{reload, reload_finished, reload_unloaded, reloaded_text, Reload};
use shikake::resolve::ResolveError;
use shikake::search::{quote, template_for, Platform};
use shikake::state::{PluginStatus, State};

fn spec(name: &str) -> PluginSpec {
    PluginSpec::new(name, &format!("/plugins/{name}.so"))
}

fn file(name: &str) -> Result<DirEntry, String> {
    Ok(DirEntry {
        file_name: Some(name.to_string()),
        path: format!("/plugins/{name}"),
        is_file: true,
    })
}

fn require_line(dir: &str, extension: &str, name: &str) -> String {
    format!(
        "lua do local e = \"{dir}/?.{extension}\" if not package.cpath:find(e, 1, true) then \
         package.cpath = package.cpath .. \";\" .. e end require(\"{name}\") end"
    )
}

/// The same, with a template for the plugin's file besides that for its directory.
fn require_line_with(template: &str, dir: &str, extension: &str, name: &str) -> String {
    let usual = require_line(dir, extension, name);
    let rest = usual.strip_prefix("lua do local ").unwrap();
    format!(
        "lua do local e = \"{template}\" if not (\";\" .. package.cpath .. \";\"):find(\";\" .. e \
         .. \";\", 1, true) then package.cpath = package.cpath .. \";\" .. e end {rest}"
    )
}

#[test]
fn discover_nonexistent_dir() {
    let err = discover_plugins("/nonexistent/path/plugins", Listing::NotADirectory);
    assert!(err.is_err());
    match err.unwrap_err() {
        LoadError::DirNotFound(p) => {
            assert_eq!(p, "/nonexistent/path/plugins");
        }
        other => panic!("expected DirNotFound, got {other:?}"),
    }
}

#[test]
fn discover_empty_dir() {
    let plugins = discover_plugins("shikake_test_empty", Listing::Entries(vec![])).unwrap();
    assert!(plugins.is_empty());
}

#[test]
fn discover_filters_non_cdylib() {
    let listing = Listing::Entries(vec![
        file("libfoo.so"),
        file("libbar.dylib"),
        file("not_a_plugin.txt"),
        file("readme.md"),
    ]);
    let plugins = discover_plugins("shikake_test_filter", listing).unwrap();
    let names: Vec<&str> = plugins.iter().map(|(n, _)| n.as_str()).collect();
    assert!(names.contains(&"bar"));
    assert!(names.contains(&"foo"));
    assert!(!names.contains(&"not_a_plugin"));
    assert!(!names.contains(&"readme"));
}

#[test]
fn discover_strips_lib_prefix() {
    let listing = Listing::Entries(vec![file("libmyplugin.so"), file("noprefixplugin.so")]);
    let plugins = discover_plugins("shikake_test_prefix", listing).unwrap();
    let names: Vec<&str> = plugins.iter().map(|(n, _)| n.as_str()).collect();
    assert!(names.contains(&"myplugin"));
    assert!(names.contains(&"noprefixplugin"));
}

#[test]
fn format_status_output() {
    // Just verify it doesn't panic and produces non-empty output.
    let output = format_status(&State::default());
    assert!(output.contains("Shikake:"));
}

#[test]
fn lua_require_command_format() {
    let cmd = lua_require_command("myplugin", "/opt/plugins/libmyplugin.so", Platform::Other);
    assert!(cmd.contains("require(\"myplugin\")"));
    assert!(cmd.contains("/opt/plugins"));
}

#[test]
fn discover_sorts_and_keeps_namesakes_in_place() {
    let mut folder = file("folder.so").unwrap();
    folder.is_file = false;
    let mut unnamed = file("unnamed.so").unwrap();
    unnamed.file_name = None;
    let listing = Listing::Entries(vec![
        file("zeta.so"),
        file("libfoo.so"),
        Ok(folder),
        file("foo.dll"),
        Ok(unnamed),
        file("alpha.dylib"),
        file("libfoo.dylib"),
    ]);
    let plugins = discover_plugins("/plugins", listing).unwrap();
    let expected: Vec<(String, String)> = vec![
        ("alpha".into(), "/plugins/alpha.dylib".into()),
        ("foo".into(), "/plugins/libfoo.so".into()),
        ("foo".into(), "/plugins/foo.dll".into()),
        ("foo".into(), "/plugins/libfoo.dylib".into()),
        ("zeta".into(), "/plugins/zeta.so".into()),
    ];
    assert_eq!(plugins, expected);
}

#[test]
fn discover_fails_as_reading_fails() {
    let unreadable = discover_plugins("/plugins", Listing::Unreadable("denied".into()));
    match unreadable {
        Err(error) => assert_eq!(error.to_string(), "io error: denied"),
        Ok(_) => panic!("expected an error"),
    }
    let listing = Listing::Entries(vec![
        file("liba.so"),
        Err("first".into()),
        Err("second".into()),
    ]);
    match discover_plugins("/plugins", listing) {
        Err(LoadError::Io(reason)) => assert_eq!(reason, "first"),
        other => panic!("expected Io, got {other:?}"),
    }
}

#[test]
fn plugin_names_of_files() {
    assert_eq!(plugin_name("libfoo.so").as_deref(), Some("foo"));
    assert_eq!(plugin_name("foo.dylib").as_deref(), Some("foo"));
    assert_eq!(plugin_name("lib.dll").as_deref(), Some(""));
    assert_eq!(plugin_name("li.so").as_deref(), Some("li"));
    assert_eq!(plugin_name("liblib.so").as_deref(), Some("lib"));
    assert_eq!(plugin_name("libfoo.1.so").as_deref(), Some("foo.1"));
    assert_eq!(plugin_name("libfoo.so.1"), None);
    assert_eq!(plugin_name("libé.so").as_deref(), Some("é"));
    assert_eq!(plugin_name("..so").as_deref(), Some("."));
    assert_eq!(plugin_name(".so"), None);
    assert_eq!(plugin_name("so"), None);
    assert_eq!(plugin_name("foo.SO"), None);
    assert_eq!(plugin_name("foo."), None);
    assert_eq!(plugin_name(""), None);
}

#[test]
fn require_commands_in_full() {
    let command = |path: &str, platform| lua_require_command("foo", path, platform);
    let other = Platform::Other;
    assert_eq!(command("/opt/plugins/foo.so", other), require_line("/opt/plugins", "so", "foo"));
    assert_eq!(
        command("plugins/foo.dylib", Platform::MacOs),
        require_line("plugins", "dylib", "foo")
    );
    assert_eq!(
        command("./plugins/foo.dll", Platform::Windows),
        require_line("./plugins", "dll", "foo")
    );
    assert_eq!(command("./foo.so", other), require_line(".", "so", "foo"));
    assert_eq!(command("a/../b.d/foo.so", other), require_line("a/../b.d", "so", "foo"));
    assert_eq!(command("a//./b/foo.so", other), require_line("a//./b", "so", "foo"));
    // Files that go by another name.
    assert_eq!(command("/opt/libbar.so", other), require_line("/opt", "so", "foo"));
    assert_eq!(command("a/../b.d/.hidden", other), require_line("a/../b.d", "so", "foo"));
    assert_eq!(command("foobar.so", other), require_line("", "so", "foo"));
    assert_eq!(command("", other), require_line(".", "so", "foo"));
    assert_eq!(command("/", other), require_line(".", "so", "foo"));
    assert_eq!(
        lua_require_command_in("foo", "", None, Platform::MacOs),
        require_line(".", "dylib", "foo")
    );
}

#[test]
fn require_commands_lead_to_the_file() {
    let other = Platform::Other;
    assert_eq!(
        lua_require_command("myplugin", "/opt/plugins/libmyplugin.so", other),
        require_line_with("/opt/plugins/lib?.so", "/opt/plugins", "so", "myplugin")
    );
    // The extension is the file's own.
    assert_eq!(
        lua_require_command("foo", "/opt/foo.dylib", other),
        require_line_with("/opt/?.dylib", "/opt", "so", "foo")
    );
    // The directory has to be spelt out.
    assert_eq!(
        lua_require_command("foo", "libfoo.so", other),
        require_line_with("./lib?.so", "", "so", "foo")
    );
    assert_eq!(
        lua_require_command("foo", "/foo.dll", Platform::Windows),
        require_line_with("/?.dll", "/", "dll", "foo")
    );
    // Lua would take a lone backslash for the start of an escape.
    assert_eq!(
        lua_require_command_in("foo", r"C:\p\libfoo.dll", Some(r"C:\p"), Platform::Windows),
        require_line_with(r"C:\\p\\lib?.dll", r"C:\\p", "dll", "foo")
    );
    assert_eq!(
        lua_require_command("foo", "/a\"b/foo.so", other),
        require_line("/a\\\"b", "so", "foo")
    );
}

#[test]
fn directories_of_paths() {
    for (path, dir) in [
        ("a/x", "a"),
        ("/a/x", "/a"),
        ("/x", "/"),
        ("x", ""),
        ("..", ""),
        (".", ""),
        ("./", ""),
        ("./.", ""),
        ("./x", "."),
        (".//x", "."),
        ("././x", "."),
        ("../x", ".."),
        (".x/y", ".x"),
        ("a/..", "a"),
        ("a//x", "a"),
        ("a/./x", "a"),
        ("a/.//./x", "a"),
        ("/./x", "/"),
        ("/.//x", "/"),
        ("/a//x//", "/a"),
        ("a/x/", "a"),
        ("a/x/.", "a"),
        ("a/x/./", "a"),
        ("a//b/./c/x", "a//b/./c"),
        ("x/", ""),
        ("x/.", ""),
        ("/x/", "/"),
        ("\u{3042}/x", "\u{3042}"),
    ] {
        let command = lua_require_command("foo", path, Platform::Other);
        assert_eq!(command, require_line(dir, "so", "foo"), "{path}");
    }
    for path in ["", "/", "/.", "/./"] {
        let command = lua_require_command("foo", path, Platform::Other);
        assert_eq!(command, require_line(".", "so", "foo"), "{path}");
    }
}

#[test]
fn templates_expand_to_files() {
    for (name, path, platform) in [
        ("foo", "/p/foo.so", Platform::Other),
        ("foo", "/p/libfoo.so", Platform::Other),
        ("libfoo", "/p/libfoo.so", Platform::Other),
        ("libfoo", "/p/liblibfoo.dylib", Platform::MacOs),
        ("foo", "/p/libfoo.so.1", Platform::Other),
        ("", "/p/lib.so", Platform::Other),
        ("foo", r"C:\p\libfoo.dll", Platform::Windows),
        ("foo", "C:foo.dll", Platform::Windows),
        ("foo", "a//./libfoo.so", Platform::Other),
    ] {
        let template = template_for(name, path, platform).unwrap();
        assert_eq!(template.replace('?', name), path);
        if !path.ends_with(".1") && !path.starts_with("C:") && !path.contains("//") {
            let file = path.strip_prefix("/p/").unwrap();
            let called = plugin_name(file).unwrap();
            assert!(template_for(&called, path, platform).is_some());
        }
    }
    assert_eq!(template_for("foo", "foo.so", Platform::Other).as_deref(), Some("./?.so"));
    assert_eq!(template_for("foo", r"C:\p\foo.so", Platform::Other), None);
    assert_eq!(template_for("foo", "/p/foo", Platform::Other), None);
    assert_eq!(template_for("foo", "/p/foobar.so", Platform::Other), None);
    assert_eq!(template_for("foo", "/p/foo.so/", Platform::Other), None);
    assert_eq!(quote("a\\b\"c/?\u{3042}"), "a\\\\b\\\"c/?\u{3042}");
    assert_eq!(quote("a\nb\rc"), "a\\nb\\rc");
    assert_eq!(quote(""), "");
}

#[test]
fn eager_plan_runs_in_dependency_order() {
    let specs = vec![
        spec("ui").depends_on("core"),
        spec("lazy").depends_on("core").on(LazyTrigger::Command("Lazy".into())),
        spec("core"),
        spec("off").disabled(),
        spec("broken"),
    ];
    let mut state = State::default();
    state.register("other");
    let mut commands = Vec::new();
    for step in load_eager(&specs).unwrap() {
        if let Some(command) = begin_step(&mut state, &step, Platform::Other) {
            assert_eq!(state.get(&step.name).unwrap().status, PluginStatus::Pending);
            commands.push(command);
            let reply = if step.name == "broken" {
                Err("no such module".to_string())
            } else {
                Ok(())
            };
            let _ = finish_load(&mut state, &step.name, reply, LoadTime::from_millis(7));
        }
    }
    assert_eq!(
        commands,
        vec![
            require_line("/plugins", "so", "broken"),
            require_line("/plugins", "so", "core"),
            require_line("/plugins", "so", "ui"),
        ]
    );
    assert_eq!(
        format_status(&state),
        "Shikake: 2 loaded, 2 pending, 1 errored (total: 14.00ms)\n  \
         x broken -- error: failed to load plugin 'broken': no such module\n  \
         * core -- loaded (7.00ms)\n  \
         o lazy -- pending\n  \
         o other -- pending\n  \
         * ui -- loaded (7.00ms)"
    );
}

#[test]
fn eager_plan_goes_by_the_last_enabled_namesake() {
    let specs = vec![
        PluginSpec::new("a", "/one/a.so").on(LazyTrigger::Command("A".into())),
        PluginSpec::new("a", "/two/a.so"),
        PluginSpec::new("a", "/three/a.so").on(LazyTrigger::Command("A".into())).disabled(),
    ];
    let plan = load_eager(&specs).unwrap();
    assert_eq!(plan.len(), 1);
    assert_eq!(plan[0].name, "a");
    assert_eq!(plan[0].path, "/two/a.so");
    assert!(!plan[0].lazy);
}

#[test]
fn eager_plan_needs_an_order() {
    let specs = vec![spec("a").depends_on("b")];
    match load_eager(&specs) {
        Err(LoadError::Resolve(error)) => assert_eq!(
            error,
            ResolveError::MissingDependency {
                from: "a".into(),
                dep: "b".into()
            }
        ),
        other => panic!("expected Resolve, got {other:?}"),
    }
    assert_eq!(
        load_eager(&specs).unwrap_err().to_string(),
        "dependency resolution failed: plugin 'a' depends on unknown plugin 'b'"
    );
}

#[test]
fn lazy_plugin_loads_once() {
    let foo = spec("foo");
    let mut state = State::default();
    state.register("foo");
    let command = load_lazy(&foo, &state, Platform::Other).unwrap();
    assert_eq!(command, require_line("/plugins", "so", "foo"));
    let failed = finish_load(&mut state, "foo", Err("boom".into()), LoadTime::from_millis(1));
    match failed {
        Err(LoadError::Load { name, reason }) => {
            assert_eq!(name, "foo");
            assert_eq!(reason, "boom");
        }
        other => panic!("expected Load, got {other:?}"),
    }
    assert!(load_lazy(&foo, &state, Platform::Other).is_some());
    assert!(finish_load(&mut state, "foo", Ok(()), LoadTime::from_millis(1)).is_ok());
    assert!(load_lazy(&foo, &state, Platform::Other).is_none());
    assert!(unload(&mut state, "foo", Ok(())).is_ok());
    assert!(load_lazy(&foo, &state, Platform::Other).is_some());
}

#[test]
fn disabled_plugin_is_not_loaded_lazily() {
    let mut state = State::default();
    assert!(load_lazy(&spec("foo").disabled(), &state, Platform::Other).is_none());
    state.register("foo");
    assert!(load_lazy(&spec("foo").disabled(), &state, Platform::Other).is_none());
    assert!(load_lazy(&spec("foo"), &state, Platform::Other).is_some());
    assert_eq!(state.get("foo").unwrap().status, PluginStatus::Pending);
}

#[test]
fn lazy_plugin_that_is_not_tracked_stays_so() {
    let mut state = State::default();
    assert!(load_lazy(&spec("foo"), &state, Platform::Other).is_some());
    assert!(finish_load(&mut state, "foo", Ok(()), LoadTime::from_millis(1)).is_ok());
    assert!(state.is_empty());
}

#[test]
fn unload_books_the_answer() {
    assert_eq!(unload_command("foo"), "lua package.loaded[\"foo\"] = nil");
    let mut state = State::default();
    state.register("foo");
    state.mark_loaded("foo", LoadTime::from_millis(2));
    let error = unload(&mut state, "foo", Err("busy".into())).unwrap_err();
    assert_eq!(error.to_string(), "failed to load plugin 'foo': unload failed: busy");
    assert_eq!(state.counts().loaded, 1);
    assert!(unload(&mut state, "foo", Ok(())).is_ok());
    assert_eq!(state.counts().pending, 1);
}

#[test]
fn errors_in_words() {
    assert_eq!(
        LoadError::DirNotFound("/nowhere".into()).to_string(),
        "plugin directory does not exist: /nowhere"
    );
    assert_eq!(
        LoadError::from(ResolveError::Cycle { cycle: "a, b".into() }).to_string(),
        "dependency resolution failed: dependency cycle detected involving: a, b"
    );
    assert_eq!(
        load_one("foo", Err("why".into())).unwrap_err().to_string(),
        "failed to load plugin 'foo': why"
    );
    assert!(load_one("foo", Ok(())).is_ok());
}

#[test]
fn report_lines_in_words() {
    let mut state = State::default();
    for i in 0..123 {
        state.register(&format!("p{i}"));
    }
    assert_eq!(
        summary_line(&state.counts(), "soon"),
        "Shikake: 0 loaded, 123 pending, 0 errored (total: soon)"
    );
    assert_eq!(entry_line(state.get("p10").unwrap(), "words"), "  o p10 -- words");
    assert_eq!(format_status(&state).lines().count(), 124);
}

#[test]
fn reload_goes_all_the_way() {
    let mut state = State::default();
    state.register("foo");
    state.register("bar");
    state.mark_errored("foo", "old");
    let (name, command) = match reload(Some(" \tfoo\u{3000}\n"), &state) {
        Reload::Unload { name, command } => (name, command),
        other => panic!("expected Unload, got {other:?}"),
    };
    assert_eq!(name, "foo");
    assert_eq!(command, "lua package.loaded[\"foo\"] = nil");
    let next = reload_unloaded(&mut state, &name, Ok(())).unwrap();
    assert_eq!(next, "lua require(\"foo\")");
    assert_eq!(state.get("foo").unwrap().status, PluginStatus::Pending);
    let message = reload_finished(&mut state, &name, Ok(()), LoadTime::from_millis(5)).unwrap();
    assert_eq!(message, "shikake: reloaded 'foo' (5.00ms)");
    assert_eq!(state.get("foo").unwrap().status.to_string(), "loaded (5.00ms)");
    assert_eq!(state.get("bar").unwrap().status, PluginStatus::Pending);
    assert_eq!(reloaded_text("foo", "a while"), "shikake: reloaded 'foo' (a while)");
}

#[test]
fn reload_refuses_what_it_does_not_know() {
    let state = State::default();
    let complaint = |args: Option<&str>| match reload(args, &state) {
        Reload::Refused { complaint } => complaint,
        other => panic!("expected Refused, got {other:?}"),
    };
    assert_eq!(complaint(None), "ShikakeReload requires a plugin name");
    assert_eq!(complaint(Some("")), "ShikakeReload requires a plugin name");
    assert_eq!(complaint(Some(" \u{a0}\u{2009} ")), "ShikakeReload requires a plugin name");
    assert_eq!(complaint(Some(" foo bar ")), "shikake: unknown plugin 'foo bar'");
    assert_eq!(complaint(Some("\u{200b}")), "shikake: unknown plugin '\u{200b}'");
}

#[test]
fn reload_fails_as_the_editor_fails() {
    let mut state = State::default();
    state.register("foo");
    state.mark_loaded("foo", LoadTime::from_millis(1));
    assert_eq!(
        reload_unloaded(&mut state, "foo", Err("busy".into())).unwrap_err(),
        "shikake: unload failed: failed to load plugin 'foo': unload failed: busy"
    );
    assert_eq!(state.counts().loaded, 1);
    assert_eq!(
        reload_finished(&mut state, "foo", Err("gone".into()), LoadTime::from_millis(1)).unwrap_err(),
        "shikake: reload failed for 'foo': gone"
    );
    assert_eq!(state.get("foo").unwrap().status.to_string(), "error: gone");
}

#[test]
fn every_white_space_is_trimmed() {
    let mut state = State::default();
    state.register("x");
    for code in 0..=0x10_ffff_u32 {
        if let Some(c) = char::from_u32(code) {
            let white = (0x9..=0xd).contains(&code)
                || (0x2000..=0x200a).contains(&code)
                || [0x20, 0x85, 0xa0, 0x1680, 0x2028, 0x2029, 0x202f, 0x205f, 0x3000].contains(&code);
            let typed = format!("{c}x{c}");
            let accepted = matches!(reload(Some(&typed), &state), Reload::Unload { .. });
            assert_eq!(accepted, white, "U+{code:04X}");
        }
    }
}
