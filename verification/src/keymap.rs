//! Which keystroke triggers which action: two presets, and overrides of single actions.

use crate::collections::TextMap;
use crate::path;
use crate::text;
use vstd::prelude::*;

verus! {

/// An action that can be bound: the name that it is configured under, its keystroke in each
/// preset, and its label.
#[derive(Clone, Copy)]
pub struct ActionDef {
    pub name: &'static str,
    pub webstorm: &'static str,
    pub vscode: &'static str,
    pub label: &'static str,
}

#[verifier::ext_equal]
pub struct ActionModel {
    pub name: Seq<char>,
    pub webstorm: Seq<char>,
    pub vscode: Seq<char>,
    pub label: Seq<char>,
}

impl ActionDef {
    pub open spec fn model(self) -> ActionModel {
        ActionModel {
            name: self.name@,
            webstorm: self.webstorm@,
            vscode: self.vscode@,
            label: self.label@,
        }
    }
}

pub open spec fn action(
    name: &'static str,
    webstorm: &'static str,
    vscode: &'static str,
    label: &'static str,
) -> ActionModel {
    ActionModel { name: name@, webstorm: webstorm@, vscode: vscode@, label: label@ }
}

/// The actions that can be bound.
pub open spec fn action_table() -> Seq<ActionModel> {
    seq![
        action("go_to_file", "cmd-shift-o", "cmd-p", "Go to File"),
        action("find_in_files", "cmd-shift-f", "cmd-shift-f", "Find in Files"),
        action("save", "cmd-s", "cmd-s", "Save File"),
        action("commit", "cmd-k", "cmd-enter", "Commit"),
        action("mode_commit", "cmd-9", "ctrl-shift-g", "Go to Commit view"),
        action("mode_browse", "cmd-1", "cmd-shift-e", "Go to Browse view"),
        action("open_keymap", "cmd-,", "cmd-,", "Keymap / Onboarding"),
        action("actions", "cmd-shift-a", "cmd-shift-a", "Find Action"),
        action("new_scratch", "cmd-shift-n", "cmd-shift-n", "New Scratch File"),
    ]
}

/// The actions that can be bound.
pub fn actions() -> (r: Vec<ActionDef>)
    ensures
        r@.len() == action_table().len(),
        forall|i: int| 0 <= i < r@.len() ==> (#[trigger] r@[i]).model() == action_table()[i],
{
    vec![
        ActionDef {
            name: "go_to_file",
            webstorm: "cmd-shift-o",
            vscode: "cmd-p",
            label: "Go to File",
        },
        ActionDef {
            name: "find_in_files",
            webstorm: "cmd-shift-f",
            vscode: "cmd-shift-f",
            label: "Find in Files",
        },
        ActionDef { name: "save", webstorm: "cmd-s", vscode: "cmd-s", label: "Save File" },
        ActionDef { name: "commit", webstorm: "cmd-k", vscode: "cmd-enter", label: "Commit" },
        ActionDef {
            name: "mode_commit",
            webstorm: "cmd-9",
            vscode: "ctrl-shift-g",
            label: "Go to Commit view",
        },
        ActionDef {
            name: "mode_browse",
            webstorm: "cmd-1",
            vscode: "cmd-shift-e",
            label: "Go to Browse view",
        },
        ActionDef {
            name: "open_keymap",
            webstorm: "cmd-,",
            vscode: "cmd-,",
            label: "Keymap / Onboarding",
        },
        ActionDef {
            name: "actions",
            webstorm: "cmd-shift-a",
            vscode: "cmd-shift-a",
            label: "Find Action",
        },
        ActionDef {
            name: "new_scratch",
            webstorm: "cmd-shift-n",
            vscode: "cmd-shift-n",
            label: "New Scratch File",
        },
    ]
}

/// The first action from `i` on with a name.
pub open spec fn action_named(table: Seq<ActionModel>, name: Seq<char>, i: int) -> Option<
    ActionModel,
>
    decreases table.len() - i,
{
    if i < 0 || i >= table.len() {
        None
    } else if table[i].name == name {
        Some(table[i])
    } else {
        action_named(table, name, i + 1)
    }
}

/// A set of keystrokes for all actions.
#[derive(Debug, Clone, Copy, PartialEq, Eq, Structural)]
pub enum Preset {
    WebStorm,
    VSCode,
    Custom,
}

impl Preset {
    pub open spec fn label_text(self) -> Seq<char> {
        match self {
            Preset::WebStorm => "WebStorm / IntelliJ"@,
            Preset::VSCode => "VSCode"@,
            Preset::Custom => "Custom"@,
        }
    }

    pub fn label(self) -> (r: &'static str)
        ensures
            r@ == self.label_text(),
    {
        match self {
            Preset::WebStorm => "WebStorm / IntelliJ",
            Preset::VSCode => "VSCode",
            Preset::Custom => "Custom",
        }
    }
}

/// The keystroke of an action in a preset; a custom one starts from the first preset.
pub open spec fn key_in(preset: Preset, a: ActionModel) -> Seq<char> {
    match preset {
        Preset::VSCode => a.vscode,
        _ => a.webstorm,
    }
}

/// The keystrokes in force.
pub struct Keymap {
    pub preset: Preset,
    /// The keystrokes of single actions that differ from the preset.
    pub overrides: TextMap,
}

impl Default for Keymap {
    fn default() -> (r: Self)
        ensures
            r.preset == Preset::WebStorm,
            r.overrides@ == Map::<Seq<char>, Seq<char>>::empty(),
    {
        Keymap { preset: Preset::WebStorm, overrides: TextMap::new() }
    }
}

/// The file `name` in the program's configuration directory: below `xdg`, else below `.config`
/// in `home`.
pub open spec fn config_file(
    xdg: Option<Seq<char>>,
    home: Option<Seq<char>>,
    name: Seq<char>,
) -> Seq<char> {
    let base = match xdg {
        Some(d) => d,
        None => path::join(
            match home {
                Some(h) => h,
                None => "."@,
            },
            ".config"@,
        ),
    };
    path::join(path::join(base, "kyde"@), name)
}

pub open spec fn opt(o: Option<&str>) -> Option<Seq<char>> {
    match o {
        Some(s) => Some(s@),
        None => None,
    }
}

/// The file `name` in the program's configuration directory.
pub fn config_file_path(xdg: Option<&str>, home: Option<&str>, name: &str) -> (r: String)
    ensures
        r@ == config_file(opt(xdg), opt(home), name@),
{
    let base = match xdg {
        Some(d) => String::from_str(d),
        None => match home {
            Some(h) => path::join_paths(h, ".config"),
            None => path::join_paths(".", ".config"),
        },
    };
    let dir = path::join_paths(base.as_str(), "kyde");
    path::join_paths(dir.as_str(), name)
}

impl Keymap {
    /// The keystroke of a named action in the preset.
    pub open spec fn preset_keystroke(&self, name: Seq<char>) -> Option<Seq<char>> {
        match action_named(action_table(), name, 0) {
            Some(a) => Some(key_in(self.preset, a)),
            None => None,
        }
    }

    /// The keystroke of a named action: its override, else that of the preset.
    pub open spec fn keystroke(&self, name: Seq<char>) -> Option<Seq<char>> {
        if self.overrides@.dom().contains(name) {
            Some(self.overrides@[name])
        } else {
            self.preset_keystroke(name)
        }
    }

    /// The keystroke of a named action in the preset.
    pub fn preset_key(&self, name: &str) -> (r: Option<&'static str>)
        ensures
            match r {
                Some(k) => self.preset_keystroke(name@) == Some(k@),
                None => self.preset_keystroke(name@) is None,
            },
    {
        let list = actions();
        let mut i: usize = 0;
        while i < list.len()
            invariant
                i <= list.len(),
                list@.len() == action_table().len(),
                forall|k: int|
                    0 <= k < list@.len() ==> (#[trigger] list@[k]).model() == action_table()[k],
                action_named(action_table(), name@, 0) == action_named(
                    action_table(),
                    name@,
                    i as int,
                ),
            decreases list.len() - i,
        {
            let a = list[i];
            proof {
                assert(list@[i as int].model() == action_table()[i as int]);
            }
            if text::str_eq(a.name, name) {
                return match self.preset {
                    Preset::VSCode => Some(a.vscode),
                    _ => Some(a.webstorm),
                };
            }
            i += 1;
        }
        None
    }

    /// The keystroke of a named action.
    pub fn key_for(&self, name: &str) -> (r: Option<String>)
        ensures
            match r {
                Some(k) => self.keystroke(name@) == Some(k@),
                None => self.keystroke(name@) is None,
            },
    {
        if let Some(k) = self.overrides.get(name) {
            return Some(k);
        }
        match self.preset_key(name) {
            Some(k) => Some(String::from_str(k)),
            None => None,
        }
    }

    /// Takes a preset as it is, without overrides.
    pub fn set_preset(&mut self, preset: Preset)
        ensures
            final(self).preset == preset,
            final(self).overrides@ == Map::<Seq<char>, Seq<char>>::empty(),
    {
        self.preset = preset;
        self.overrides.clear();
    }

    /// Where the keymap is stored.
    pub fn config_path(xdg: Option<&str>, home: Option<&str>) -> (r: String)
        ensures
            r@ == config_file(opt(xdg), opt(home), "keymap.json"@),
    {
        config_file_path(xdg, home, "keymap.json")
    }

    /// The keymap that was stored, if there is one that can be read, and whether the program
    /// runs for the first time.
    pub fn load(stored: Option<Keymap>) -> (r: (Keymap, bool))
        ensures
            match stored {
                Some(k) => r == (k, false),
                None => r.1 && r.0.preset == Preset::WebStorm && r.0.overrides@ == Map::<
                    Seq<char>,
                    Seq<char>,
                >::empty(),
            },
    {
        match stored {
            Some(k) => (k, false),
            None => (Keymap::default(), true),
        }
    }
}

/// An override decides the keystroke of its action, whatever the preset, and of no other.
pub proof fn lemma_override_wins(km: Keymap, over: Keymap, name: Seq<char>, key: Seq<char>)
    requires
        over.preset == km.preset,
        over.overrides@ == km.overrides@.insert(name, key),
    ensures
        over.keystroke(name) == Some(key),
        forall|other: Seq<char>|
            other != name ==> #[trigger] over.keystroke(other) == km.keystroke(other),
{
}

/// Taking a preset gives every action the keystroke that the preset has for it.
pub proof fn lemma_preset_taken(km: Keymap, name: Seq<char>)
    requires
        km.overrides@ == Map::<Seq<char>, Seq<char>>::empty(),
    ensures
        km.keystroke(name) == km.preset_keystroke(name),
{
}

/// The keystrokes of the two presets, action by action; a custom keymap without overrides has
/// those of the first.
pub proof fn lemma_preset_keys(name: Seq<char>, preset: Preset)
    ensures
        preset_key(Preset::WebStorm, "go_to_file"@) == Some("cmd-shift-o"@),
        preset_key(Preset::VSCode, "go_to_file"@) == Some("cmd-p"@),
        preset_key(Preset::WebStorm, "find_in_files"@) == Some("cmd-shift-f"@),
        preset_key(Preset::VSCode, "find_in_files"@) == Some("cmd-shift-f"@),
        preset_key(Preset::WebStorm, "save"@) == Some("cmd-s"@),
        preset_key(Preset::VSCode, "save"@) == Some("cmd-s"@),
        preset_key(Preset::WebStorm, "commit"@) == Some("cmd-k"@),
        preset_key(Preset::VSCode, "commit"@) == Some("cmd-enter"@),
        preset_key(Preset::WebStorm, "mode_commit"@) == Some("cmd-9"@),
        preset_key(Preset::VSCode, "mode_commit"@) == Some("ctrl-shift-g"@),
        preset_key(Preset::WebStorm, "mode_browse"@) == Some("cmd-1"@),
        preset_key(Preset::VSCode, "mode_browse"@) == Some("cmd-shift-e"@),
        preset_key(Preset::WebStorm, "open_keymap"@) == Some("cmd-,"@),
        preset_key(Preset::VSCode, "open_keymap"@) == Some("cmd-,"@),
        preset_key(Preset::WebStorm, "actions"@) == Some("cmd-shift-a"@),
        preset_key(Preset::VSCode, "actions"@) == Some("cmd-shift-a"@),
        preset_key(Preset::WebStorm, "new_scratch"@) == Some("cmd-shift-n"@),
        preset_key(Preset::VSCode, "new_scratch"@) == Some("cmd-shift-n"@),
        preset_key(Preset::Custom, name) == preset_key(Preset::WebStorm, name),
        preset_key(preset, name) is Some <==> (name == "go_to_file"@ || name == "find_in_files"@ || name == "save"@ || name == "commit"@ || name == "mode_commit"@ || name == "mode_browse"@ || name == "open_keymap"@ || name == "actions"@ || name == "new_scratch"@),
{
    reveal_strlit("go_to_file");
    assert("go_to_file"@.len() == 10 && "go_to_file"@[0] == 'g' && "go_to_file"@[1] == 'o' && "go_to_file"@[2] == '_' && "go_to_file"@[3] == 't' && "go_to_file"@[4] == 'o' && "go_to_file"@[5] == '_' && "go_to_file"@[6] == 'f' && "go_to_file"@[7] == 'i' && "go_to_file"@[8] == 'l' && "go_to_file"@[9] == 'e');
    reveal_strlit("find_in_files");
    assert("find_in_files"@.len() == 13 && "find_in_files"@[0] == 'f' && "find_in_files"@[1] == 'i' && "find_in_files"@[2] == 'n' && "find_in_files"@[3] == 'd' && "find_in_files"@[4] == '_' && "find_in_files"@[5] == 'i' && "find_in_files"@[6] == 'n' && "find_in_files"@[7] == '_' && "find_in_files"@[8] == 'f' && "find_in_files"@[9] == 'i' && "find_in_files"@[10] == 'l' && "find_in_files"@[11] == 'e' && "find_in_files"@[12] == 's');
    reveal_strlit("save");
    assert("save"@.len() == 4 && "save"@[0] == 's' && "save"@[1] == 'a' && "save"@[2] == 'v' && "save"@[3] == 'e');
    reveal_strlit("commit");
    assert("commit"@.len() == 6 && "commit"@[0] == 'c' && "commit"@[1] == 'o' && "commit"@[2] == 'm' && "commit"@[3] == 'm' && "commit"@[4] == 'i' && "commit"@[5] == 't');
    reveal_strlit("mode_commit");
    assert("mode_commit"@.len() == 11 && "mode_commit"@[0] == 'm' && "mode_commit"@[1] == 'o' && "mode_commit"@[2] == 'd' && "mode_commit"@[3] == 'e' && "mode_commit"@[4] == '_' && "mode_commit"@[5] == 'c' && "mode_commit"@[6] == 'o' && "mode_commit"@[7] == 'm' && "mode_commit"@[8] == 'm' && "mode_commit"@[9] == 'i' && "mode_commit"@[10] == 't');
    reveal_strlit("mode_browse");
    assert("mode_browse"@.len() == 11 && "mode_browse"@[0] == 'm' && "mode_browse"@[1] == 'o' && "mode_browse"@[2] == 'd' && "mode_browse"@[3] == 'e' && "mode_browse"@[4] == '_' && "mode_browse"@[5] == 'b' && "mode_browse"@[6] == 'r' && "mode_browse"@[7] == 'o' && "mode_browse"@[8] == 'w' && "mode_browse"@[9] == 's' && "mode_browse"@[10] == 'e');
    reveal_strlit("open_keymap");
    assert("open_keymap"@.len() == 11 && "open_keymap"@[0] == 'o' && "open_keymap"@[1] == 'p' && "open_keymap"@[2] == 'e' && "open_keymap"@[3] == 'n' && "open_keymap"@[4] == '_' && "open_keymap"@[5] == 'k' && "open_keymap"@[6] == 'e' && "open_keymap"@[7] == 'y' && "open_keymap"@[8] == 'm' && "open_keymap"@[9] == 'a' && "open_keymap"@[10] == 'p');
    reveal_strlit("actions");
    assert("actions"@.len() == 7 && "actions"@[0] == 'a' && "actions"@[1] == 'c' && "actions"@[2] == 't' && "actions"@[3] == 'i' && "actions"@[4] == 'o' && "actions"@[5] == 'n' && "actions"@[6] == 's');
    reveal_strlit("new_scratch");
    assert("new_scratch"@.len() == 11 && "new_scratch"@[0] == 'n' && "new_scratch"@[1] == 'e' && "new_scratch"@[2] == 'w' && "new_scratch"@[3] == '_' && "new_scratch"@[4] == 's' && "new_scratch"@[5] == 'c' && "new_scratch"@[6] == 'r' && "new_scratch"@[7] == 'a' && "new_scratch"@[8] == 't' && "new_scratch"@[9] == 'c' && "new_scratch"@[10] == 'h');
    let t = action_table();
    assert(t[0].name == "go_to_file"@ && t[0].webstorm == "cmd-shift-o"@ && t[0].vscode == "cmd-p"@);
    assert(t[1].name == "find_in_files"@ && t[1].webstorm == "cmd-shift-f"@ && t[1].vscode == "cmd-shift-f"@);
    assert(t[2].name == "save"@ && t[2].webstorm == "cmd-s"@ && t[2].vscode == "cmd-s"@);
    assert(t[3].name == "commit"@ && t[3].webstorm == "cmd-k"@ && t[3].vscode == "cmd-enter"@);
    assert(t[4].name == "mode_commit"@ && t[4].webstorm == "cmd-9"@ && t[4].vscode == "ctrl-shift-g"@);
    assert(t[5].name == "mode_browse"@ && t[5].webstorm == "cmd-1"@ && t[5].vscode == "cmd-shift-e"@);
    assert(t[6].name == "open_keymap"@ && t[6].webstorm == "cmd-,"@ && t[6].vscode == "cmd-,"@);
    assert(t[7].name == "actions"@ && t[7].webstorm == "cmd-shift-a"@ && t[7].vscode == "cmd-shift-a"@);
    assert(t[8].name == "new_scratch"@ && t[8].webstorm == "cmd-shift-n"@ && t[8].vscode == "cmd-shift-n"@);
    lemma_action_named("go_to_file"@, 0, 0);
    lemma_action_named("find_in_files"@, 0, 1);
    lemma_action_named("save"@, 0, 2);
    lemma_action_named("commit"@, 0, 3);
    lemma_action_named("mode_commit"@, 0, 4);
    lemma_action_named("mode_browse"@, 0, 5);
    lemma_action_named("open_keymap"@, 0, 6);
    lemma_action_named("actions"@, 0, 7);
    lemma_action_named("new_scratch"@, 0, 8);
    lemma_named_in(name, 0);
}

/// The keystroke of a named action in a preset.
pub open spec fn preset_key(preset: Preset, name: Seq<char>) -> Option<Seq<char>> {
    match action_named(action_table(), name, 0) {
        Some(a) => Some(key_in(preset, a)),
        None => None,
    }
}

proof fn lemma_action_named(name: Seq<char>, i: int, k: int)
    requires
        0 <= i <= k < action_table().len(),
        action_table()[k].name == name,
        forall|j: int| i <= j < k ==> (#[trigger] action_table()[j]).name != name,
    ensures
        action_named(action_table(), name, i) == Some(action_table()[k]),
    decreases k - i,
{
    if i < k {
        assert(action_table()[i].name != name);
        lemma_action_named(name, i + 1, k);
    }
}

proof fn lemma_named_in(name: Seq<char>, i: int)
    requires
        0 <= i <= action_table().len(),
    ensures
        action_named(action_table(), name, i) is Some <==> exists|k: int|
            i <= k < action_table().len() && (#[trigger] action_table()[k]).name == name,
    decreases action_table().len() - i,
{
    if i < action_table().len() && action_table()[i].name != name {
        lemma_named_in(name, i + 1);
    }
}

/// A keymap goes by its preset where it has no override.
pub proof fn lemma_keystroke(km: Keymap, name: Seq<char>)
    ensures
        km.preset_keystroke(name) == preset_key(km.preset, name),
        km.overrides@.dom().contains(name) ==> km.keystroke(name) == Some(km.overrides@[name]),
        !km.overrides@.dom().contains(name) ==> km.keystroke(name) == preset_key(km.preset, name),
{
}

/// A file of the program's configuration lies in the program's own directory: in the one that
/// the environment names, else in the usual one below the home directory.
pub proof fn lemma_config_file(x: Seq<char>, h: Seq<char>, home: Option<Seq<char>>, name: Seq<char>)
    requires
        path::named(name),
        x.len() > 0,
        h.len() > 0,
    ensures
        path::components(config_file(Some(x), home, name)) == path::components(x).push(
            "kyde"@,
        ).push(name),
        path::components(config_file(None, Some(h), name)) == path::components(h).push(
            ".config"@,
        ).push("kyde"@).push(name),
{
    reveal_strlit("kyde");
    reveal_strlit(".config");
    assert("kyde"@ =~= seq!['k', 'y', 'd', 'e']);
    assert(".config"@ =~= seq!['.', 'c', 'o', 'n', 'f', 'i', 'g']);
    assert(path::named("kyde"@));
    assert(path::named(".config"@));
    path::lemma_join_name(x, "kyde"@);
    lemma_join_filled(x, "kyde"@);
    path::lemma_join_name(path::join(x, "kyde"@), name);
    path::lemma_join_name(h, ".config"@);
    lemma_join_filled(h, ".config"@);
    let c = path::join(h, ".config"@);
    path::lemma_join_name(c, "kyde"@);
    lemma_join_filled(c, "kyde"@);
    path::lemma_join_name(path::join(c, "kyde"@), name);
}

proof fn lemma_join_filled(base: Seq<char>, rel: Seq<char>)
    requires
        rel.len() > 0,
    ensures
        path::join(base, rel).len() > 0,
{
}

/// The names of the presets.
pub proof fn lemma_labels(p: Preset)
    ensures
        p.label_text() == "WebStorm / IntelliJ"@ <==> p == Preset::WebStorm,
        p.label_text() == "VSCode"@ <==> p == Preset::VSCode,
        p.label_text() == "Custom"@ <==> p == Preset::Custom,
{
    reveal_strlit("WebStorm / IntelliJ");
    reveal_strlit("VSCode");
    reveal_strlit("Custom");
    assert("WebStorm / IntelliJ"@.len() == 19);
    assert("VSCode"@[0] == 'V' && "Custom"@[0] == 'C');
}

} // verus!
