use kyde::keymap::{actions, Keymap, Preset};
use std::collections::BTreeMap;

#[test]
fn presets_differ_for_go_to_file() {
    let mut km = Keymap::default();
    assert_eq!(km.key_for("go_to_file").as_deref(), Some("cmd-shift-o"));
    km.set_preset(Preset::VSCode);
    assert_eq!(km.key_for("go_to_file").as_deref(), Some("cmd-p"));
}

#[test]
fn override_wins_and_round_trips() {
    let mut km = Keymap::default();
    km.overrides.insert("save", "cmd-alt-s");
    // The overrides go through JSON and come back.
    let stored: BTreeMap<String, String> = km
        .overrides
        .keys()
        .into_iter()
        .map(|k| {
            let v = km.overrides.get(&k).unwrap();
            (k, v)
        })
        .collect();
    let json = serde_json::to_string(&stored).unwrap();
    let read: BTreeMap<String, String> = serde_json::from_str(&json).unwrap();
    let mut back = Keymap::default();
    for (k, v) in &read {
        back.overrides.insert(k, v);
    }
    assert_eq!(back.key_for("save").as_deref(), Some("cmd-alt-s"));
    assert_eq!(back.key_for("go_to_file").as_deref(), Some("cmd-shift-o"));
}

#[test]
fn preset_clears_overrides() {
    let mut km = Keymap::default();
    km.overrides.insert("save", "cmd-alt-s");
    km.set_preset(Preset::VSCode);
    assert_eq!(km.key_for("save").as_deref(), Some("cmd-s"));
    assert_eq!(km.overrides.keys(), Vec::<String>::new());
}

#[test]
fn custom_preset_falls_back_to_the_first() {
    let mut km = Keymap::default();
    km.set_preset(Preset::Custom);
    assert_eq!(km.preset_key("commit"), Some("cmd-k"));
    assert_eq!(km.preset_key("no_such_action"), None);
    assert_eq!(km.key_for("no_such_action"), None);
}

#[test]
fn unknown_actions_can_be_overridden() {
    let mut km = Keymap::default();
    km.overrides.insert("no_such_action", "f1");
    assert_eq!(km.key_for("no_such_action").as_deref(), Some("f1"));
}

#[test]
fn labels_of_the_presets() {
    assert_eq!(Preset::WebStorm.label(), "WebStorm / IntelliJ");
    assert_eq!(Preset::VSCode.label(), "VSCode");
    assert_eq!(Preset::Custom.label(), "Custom");
}

#[test]
fn every_action_has_keys_in_both_presets() {
    let list = actions();
    assert_eq!(list.len(), 9);
    for a in list {
        assert!(!a.webstorm.is_empty() && !a.vscode.is_empty() && !a.label.is_empty());
    }
}

#[test]
fn keymap_file_lies_in_the_config_directory() {
    assert_eq!(Keymap::config_path(Some("/x"), Some("/h")), "/x/kyde/keymap.json");
    assert_eq!(Keymap::config_path(None, Some("/h")), "/h/.config/kyde/keymap.json");
    assert_eq!(Keymap::config_path(None, None), "./.config/kyde/keymap.json");
}

#[test]
fn first_run_is_when_nothing_was_stored() {
    let (km, first) = Keymap::load(None);
    assert!(first);
    assert_eq!(km.preset, Preset::WebStorm);
    let mut stored = Keymap::default();
    stored.set_preset(Preset::VSCode);
    let (km, first) = Keymap::load(Some(stored));
    assert!(!first);
    assert_eq!(km.preset, Preset::VSCode);
}
