use kyde::plugins::Plugins;

#[test]
fn install_round_trips() {
    let mut p = Plugins::default();
    assert!(!p.is_installed("json"));
    p.install("json");
    assert!(p.is_installed("json"));
    // The ids go through JSON and come back.
    let json = serde_json::to_string(&p.ids()).unwrap();
    let ids: Vec<String> = serde_json::from_str(&json).unwrap();
    let mut back = Plugins::default();
    for id in &ids {
        back.install(id);
    }
    assert!(back.is_installed("json"));
    assert!(!back.is_installed("rust"));
}

#[test]
fn uninstall_undoes_install() {
    let mut p = Plugins::default();
    p.install("rust");
    p.install("go");
    p.install("rust");
    assert_eq!(p.ids(), vec!["go".to_string(), "rust".to_string()]);
    p.uninstall("rust");
    p.uninstall("never");
    assert!(!p.is_installed("rust"));
    assert_eq!(p.ids(), vec!["go".to_string()]);
}

#[test]
fn packs_file_lies_in_the_config_directory() {
    assert_eq!(Plugins::config_path(None, Some("/h")), "/h/.config/kyde/plugins.json");
    assert!(Plugins::load(None).ids().is_empty());
}
