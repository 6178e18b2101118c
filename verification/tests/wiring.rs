use blast::json::Json;
use blast::settings::{
    command_for, install, is_installable, is_ours, settings_path, uninstall,
};

fn text(s: &str) -> Json {
    Json::Text(s.to_string())
}

fn object(entries: Vec<(&str, Json)>) -> Json {
    let mut members: Vec<(String, Json)> =
        entries.into_iter().map(|(key, value)| (key.to_string(), value)).collect();
    members.sort_by(|a, b| a.0.cmp(&b.0));
    Json::Object(members)
}

fn entry(command: &str) -> Json {
    object(vec![(
        "hooks",
        Json::List(vec![object(vec![("type", text("command")), ("command", text(command))])]),
    )])
}

fn theirs() -> Json {
    object(vec![
        ("model", text("opus")),
        (
            "hooks",
            object(vec![(
                "PostToolUse",
                Json::List(vec![
                    entry("./scripts/mine.sh"),
                    entry(".collide/bin/collide-hook report"),
                ]),
            )]),
        ),
    ])
}

fn commands(blob: &Json) -> Vec<String> {
    let list = blob.get("hooks").unwrap().get("PostToolUse").unwrap().as_array().unwrap();
    list.iter()
        .map(|entry| {
            let hooks = entry.get("hooks").unwrap().as_array().unwrap();
            hooks[0].get("command").unwrap().as_str().unwrap().to_string()
        })
        .collect()
}

/// The guarantee: another tool's hooks, and the developer's own, come through
/// install and uninstall untouched.
#[test]
fn leaves_every_other_tool_alone() {
    let after = install(&theirs(), "codex");
    let installed = commands(&after);
    assert!(installed.iter().any(|c| c.contains("./scripts/mine.sh")), "{installed:?}");
    assert!(installed.iter().any(|c| c.contains("collide-hook")), "{installed:?}");
    assert!(installed.iter().any(|c| c.contains(".blast/bin/blast")), "{installed:?}");
    assert_eq!(after.get("model").unwrap().as_str(), Some("opus"), "unrelated settings survive");

    let after = uninstall(&after);
    let left = commands(&after);
    assert_eq!(left.len(), 2, "only ours is removed: {left:?}");
    assert!(left.iter().any(|c| c.contains("collide-hook")), "{left:?}");
    assert_eq!(after.get("model").unwrap().as_str(), Some("opus"));
}

/// Installing twice must not leave two copies wired to the same event.
#[test]
fn installing_twice_is_installing_once() {
    let once = install(&object(vec![]), "codex");
    let blob = install(&once, "codex");
    let ours = commands(&blob).iter().filter(|c| is_ours(c)).count();
    assert_eq!(ours, 1);
    assert_eq!(blob, once);
}

/// Our own test for "is this ours" must not claim another tool's hook.
#[test]
fn only_claims_its_own_commands() {
    assert!(is_ours("BLAST_HARNESS=codex .blast/bin/blast hook"));
    assert!(!is_ours(".collide/bin/collide-hook report"));
    assert!(!is_ours(".collide/report_hook.py"));
    assert!(!is_ours("./scripts/mine.sh"));
}

#[test]
fn the_path_in_a_command_is_what_makes_it_ours() {
    assert!(is_ours("python .blast/tool.py"));
    assert!(!is_ours("blast hook"));
}

#[test]
fn uninstalling_undoes_installing() {
    let after = uninstall(&install(&theirs(), "codex"));
    assert_eq!(commands(&after), commands(&theirs()));
    assert_eq!(after.get("model"), theirs().get("model"));
    for (event, list) in after.get("hooks").unwrap().as_object().unwrap() {
        let left = if event == "PostToolUse" { 2 } else { 0 };
        assert_eq!(list.as_array().unwrap().len(), left, "{event}");
    }
}

#[test]
fn uninstalling_twice_is_uninstalling_once() {
    let installed = install(&theirs(), "cursor");
    let once = uninstall(&installed);
    assert_eq!(uninstall(&once), once);
}

#[test]
fn every_event_gets_one_entry_with_our_command() {
    let blob = install(&object(vec![]), "codex");
    let hooks = blob.get("hooks").unwrap().as_object().unwrap();
    assert!(!hooks.is_empty());
    for (event, list) in hooks {
        let list = list.as_array().unwrap();
        assert_eq!(list.len(), 1, "{event}");
        let inner = list[0].get("hooks").unwrap().as_array().unwrap();
        assert_eq!(
            inner[0].get("command").unwrap().as_str(),
            Some("BLAST_HARNESS=codex .blast/bin/blast hook")
        );
        assert_eq!(inner[0].get("type").unwrap().as_str(), Some("command"));
    }
}

#[test]
fn settings_that_hold_no_object_take_no_entries() {
    assert!(is_installable(&object(vec![])));
    assert!(is_installable(&theirs()));
    assert!(!is_installable(&text("x")));
    assert!(!is_installable(&object(vec![("hooks", Json::List(vec![]))])));
}

#[test]
fn every_harness_has_its_file_and_command() {
    assert_eq!(settings_path("cursor", "home"), ".cursor/hooks.json");
    assert_eq!(settings_path("codex", "home"), ".codex/hooks.json");
    assert_eq!(settings_path("other", "home"), ".home/settings.json");
    assert_eq!(command_for("codex"), "BLAST_HARNESS=codex .blast/bin/blast hook");
}

#[test]
fn texts_outside_the_hooks_stay() {
    let denied = object(vec![(
        "permissions",
        object(vec![("deny", Json::List(vec![text("Read(.blast/**)")]))]),
    )]);
    assert_eq!(uninstall(&denied), denied);
    let args = object(vec![(
        "hooks",
        object(vec![(
            "Stop",
            Json::List(vec![object(vec![
                ("command", text("mine.sh")),
                ("args", Json::List(vec![text(".blast/x")])),
            ])]),
        )]),
    )]);
    assert_eq!(uninstall(&args), args);
    let listed = object(vec![(
        "hooks",
        object(vec![("Stop", Json::List(vec![text(".blast/bin/blast hook"), text("mine.sh")]))]),
    )]);
    let left = object(vec![("hooks", object(vec![("Stop", Json::List(vec![text("mine.sh")]))]))]);
    assert_eq!(uninstall(&listed), left);
}

#[test]
fn members_are_set_by_their_names() {
    let entries = |list: Vec<(&str, Json)>| {
        Json::Object(list.into_iter().map(|(k, v)| (k.to_string(), v)).collect::<Vec<_>>())
    };
    let mixed = entries(vec![("zed", Json::Null), ("hooks", entries(vec![])), ("alpha", Json::Null)]);
    let after = install(&mixed, "codex");
    let names: Vec<&str> = after.as_object().unwrap().iter().map(|(k, _)| k.as_str()).collect();
    assert_eq!(names, vec!["zed", "hooks", "alpha"]);
    assert_eq!(commands(&after), vec!["BLAST_HARNESS=codex .blast/bin/blast hook"]);
}
