//! The language packs that are installed.

use crate::collections;
use crate::collections::TextSet;
use crate::highlight;
use crate::highlight::{Lang, Pack};
use crate::keymap;
use crate::path;
use crate::text;
use vstd::prelude::*;

verus! {

/// The language packs that are installed, by their ids.
pub struct Plugins {
    installed: TextSet,
}

impl View for Plugins {
    type V = Set<Seq<char>>;

    closed spec fn view(&self) -> Set<Seq<char>> {
        self.installed@
    }
}

impl Default for Plugins {
    fn default() -> (r: Self)
        ensures
            r@ == Set::<Seq<char>>::empty(),
    {
        Plugins { installed: TextSet::new() }
    }
}

impl Plugins {
    pub fn is_installed(&self, pack_id: &str) -> (r: bool)
        ensures
            r == self@.contains(pack_id@),
    {
        self.installed.contains(pack_id)
    }

    pub fn install(&mut self, pack_id: &str)
        ensures
            final(self)@ == old(self)@.insert(pack_id@),
    {
        self.installed.insert(pack_id);
    }

    pub fn uninstall(&mut self, pack_id: &str)
        ensures
            final(self)@ == old(self)@.remove(pack_id@),
    {
        self.installed.remove(pack_id);
    }

    /// The ids, in order.
    pub fn ids(&self) -> (r: Vec<String>)
        ensures
            collections::ascending(text::texts(r@)),
            forall|k: Seq<char>| text::texts(r@).contains(k) <==> self@.contains(k),
    {
        self.installed.to_vec()
    }

    /// Where the packs are stored.
    pub fn config_path(xdg: Option<&str>, home: Option<&str>) -> (r: String)
        ensures
            r@ == keymap::config_file(keymap::opt(xdg), keymap::opt(home), "plugins.json"@),
    {
        keymap::config_file_path(xdg, home, "plugins.json")
    }

    /// The packs that were stored, if they can be read.
    pub fn load(stored: Option<Plugins>) -> (r: Plugins)
        ensures
            match stored {
                Some(p) => r == p,
                None => r@ == Set::<Seq<char>>::empty(),
            },
    {
        match stored {
            Some(p) => p,
            None => Plugins::default(),
        }
    }
}

/// The language to highlight with: plain text as long as the pack of a language is missing.
pub open spec fn effective(packs: Set<Seq<char>>, lang: Lang) -> Lang {
    match highlight::pack_id(lang) {
        Some(id) => if packs.contains(id) {
            lang
        } else {
            Lang::PlainText
        },
        None => lang,
    }
}

/// What has to be done after a pack was installed or uninstalled.
#[derive(Debug, Clone, Copy, PartialEq, Eq, Structural)]
pub enum PackEffect {
    Nothing,
    /// The preview of a font is made anew.
    FontPreview,
    /// The open file is highlighted in this language.
    SetLang(Lang),
}

/// What is done about the preview of the open file, if it is a font.
#[derive(Debug, Clone, Copy, PartialEq, Eq, Structural)]
pub enum FontPreview {
    Clear,
    Keep,
    Load,
}

/// The pack that the open file lacks, unless it was turned down.
pub open spec fn pending(
    packs: Set<Seq<char>>,
    ignored: Set<Seq<char>>,
    open_path: Option<Seq<char>>,
) -> Option<Seq<char>> {
    match open_path {
        Some(p) => match highlight::pack_id(highlight::lang_of_path(p)) {
            Some(id) => if !packs.contains(id) && !ignored.contains(id) {
                Some(id)
            } else {
                None
            },
            None => None,
        },
        None => None,
    }
}

impl Plugins {
    /// The language that a file is highlighted in.
    pub fn effective_lang(&self, rel: &str) -> (r: Lang)
        ensures
            r == effective(self@, highlight::lang_of_path(rel@)),
    {
        let lang = Lang::from_path(rel);
        match lang.pack() {
            Some(p) => if self.is_installed(p.id) {
                lang
            } else {
                Lang::PlainText
            },
            None => lang,
        }
    }

    /// Whether a file is shown as source and preview side by side.
    pub fn previews_markdown(&self, rel: &str) -> (r: bool)
        ensures
            r == (highlight::lang_of_path(rel@) == Lang::Markdown && self@.contains("markdown"@)),
    {
        Lang::from_path(rel) == Lang::Markdown && self.is_installed("markdown")
    }

    /// The pack that the open file lacks, unless it was turned down.
    pub fn pending_pack(&self, open_path: Option<&str>, ignored: &TextSet) -> (r: Option<Pack>)
        ensures
            match r {
                Some(p) => pending(self@, ignored@, keymap::opt(open_path)) == Some(p.id@),
                None => pending(self@, ignored@, keymap::opt(open_path)) is None,
            },
    {
        match open_path {
            None => None,
            Some(rel) => match Lang::from_path(rel).pack() {
                Some(p) => if !self.is_installed(p.id) && !ignored.contains(p.id) {
                    Some(p)
                } else {
                    None
                },
                None => None,
            },
        }
    }

    /// Turns down the pack that the open file lacks. Returns whether there is one.
    pub fn ignore_open_pack(&self, open_path: Option<&str>, ignored: &mut TextSet) -> (r: bool)
        ensures
            match pending(self@, old(ignored)@, keymap::opt(open_path)) {
                Some(id) => r && final(ignored)@ == old(ignored)@.insert(id),
                None => !r && final(ignored)@ == old(ignored)@,
            },
    {
        match self.pending_pack(open_path, ignored) {
            Some(p) => {
                ignored.insert(p.id);
                true
            },
            None => false,
        }
    }

    /// Installs the pack of the open file. Returns the language to highlight it in.
    pub fn install_open_pack(&mut self, open_path: Option<&str>) -> (r: Option<Lang>)
        ensures
            match open_path {
                Some(rel) => match highlight::pack_id(highlight::lang_of_path(rel@)) {
                    Some(id) => r == Some(highlight::lang_of_path(rel@)) && final(self)@ == old(
                        self,
                    )@.insert(id),
                    None => r is None && final(self)@ == old(self)@,
                },
                None => r is None && final(self)@ == old(self)@,
            },
    {
        match open_path {
            None => None,
            Some(rel) => {
                let lang = Lang::from_path(rel);
                match lang.pack() {
                    Some(p) => {
                        self.install(p.id);
                        Some(lang)
                    },
                    None => None,
                }
            },
        }
    }

    /// Installs a pack; the open file is shown with it at once.
    pub fn install_pack(&mut self, id: &str, open_path: Option<&str>) -> (r: PackEffect)
        ensures
            final(self)@ == old(self)@.insert(id@),
            r == if id@ == "font"@ {
                PackEffect::FontPreview
            } else {
                match open_path {
                    Some(rel) => PackEffect::SetLang(
                        effective(final(self)@, highlight::lang_of_path(rel@)),
                    ),
                    None => PackEffect::Nothing,
                }
            },
    {
        self.install(id);
        if text::str_eq(id, "font") {
            return PackEffect::FontPreview;
        }
        match open_path {
            Some(rel) => PackEffect::SetLang(self.effective_lang(rel)),
            None => PackEffect::Nothing,
        }
    }

    /// Installs a pack, or uninstalls one that is installed; the open file is shown anew if it
    /// is of the pack's language.
    pub fn toggle_plugin(&mut self, id: &str, open_path: Option<&str>) -> (r: PackEffect)
        ensures
            final(self)@ == if old(self)@.contains(id@) {
                old(self)@.remove(id@)
            } else {
                old(self)@.insert(id@)
            },
            r == if id@ == "font"@ {
                PackEffect::FontPreview
            } else {
                match open_path {
                    Some(rel) => if highlight::pack_id(highlight::lang_of_path(rel@)) == Some(id@) {
                        PackEffect::SetLang(
                            effective(final(self)@, highlight::lang_of_path(rel@)),
                        )
                    } else {
                        PackEffect::Nothing
                    },
                    None => PackEffect::Nothing,
                }
            },
    {
        if self.is_installed(id) {
            self.uninstall(id);
        } else {
            self.install(id);
        }
        if text::str_eq(id, "font") {
            return PackEffect::FontPreview;
        }
        match open_path {
            Some(rel) => match Lang::from_path(rel).pack() {
                Some(p) => if text::str_eq(p.id, id) {
                    PackEffect::SetLang(self.effective_lang(rel))
                } else {
                    PackEffect::Nothing
                },
                None => PackEffect::Nothing,
            },
            None => PackEffect::Nothing,
        }
    }

    /// What is done about the preview of the open file, where `font` is its path if it is a font
    /// and `shown` that of the font that is shown.
    pub fn load_font_preview(&self, font: Option<&str>, shown: Option<&str>) -> (r: FontPreview)
        ensures
            r == match font {
                None => FontPreview::Clear,
                Some(p) => if !self@.contains("font"@) {
                    FontPreview::Clear
                } else if shown matches Some(s) && path::same(s@, p@) {
                    FontPreview::Keep
                } else {
                    FontPreview::Load
                },
            },
    {
        match font {
            None => FontPreview::Clear,
            Some(p) => {
                if !self.is_installed("font") {
                    return FontPreview::Clear;
                }
                match shown {
                    Some(s) => if path::same_path(s, p) {
                        FontPreview::Keep
                    } else {
                        FontPreview::Load
                    },
                    None => FontPreview::Load,
                }
            },
        }
    }
}

/// Without its pack a language is plain text; with it, it is itself; and a language without a
/// pack is always itself.
pub proof fn lemma_effective(packs: Set<Seq<char>>, lang: Lang)
    ensures
        highlight::pack_id(lang) matches Some(id) ==> effective(packs.insert(id), lang) == lang
            && effective(packs.remove(id), lang) == Lang::PlainText,
        highlight::pack_id(lang) is None ==> effective(packs, lang) == lang,
{
}

/// A pack is there after it was installed and gone after it was uninstalled; other packs stay as
/// they are.
pub proof fn lemma_install(packs: Set<Seq<char>>, id: Seq<char>)
    ensures
        packs.insert(id).contains(id),
        !packs.remove(id).contains(id),
        !packs.contains(id) ==> packs.insert(id).remove(id) == packs,
        forall|other: Seq<char>|
            other != id ==> #[trigger] packs.insert(id).contains(other) == packs.contains(other)
                && packs.remove(id).contains(other) == packs.contains(other),
{
    if !packs.contains(id) {
        assert(packs.insert(id).remove(id) =~= packs);
    }
}

/// A pack is offered if and only if the open file is of its language, it is not installed, and it
/// was not turned down; as long as it is offered the file is plain text.
pub proof fn lemma_pending(
    packs: Set<Seq<char>>,
    ignored: Set<Seq<char>>,
    p: Seq<char>,
    id: Seq<char>,
)
    ensures
        pending(packs, ignored, Some(p)) == Some(id) <==> highlight::pack_id(
            highlight::lang_of_path(p),
        ) == Some(id) && !packs.contains(id) && !ignored.contains(id),
        pending(packs, ignored, None) is None,
        pending(packs, ignored, Some(p)) is Some ==> effective(packs, highlight::lang_of_path(p))
            == Lang::PlainText,
        pending(packs.insert(id), ignored, Some(p)) != Some(id),
        pending(packs, ignored.insert(id), Some(p)) != Some(id),
{
}

} // verus!
