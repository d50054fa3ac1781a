//! Keys of an editor: the contexts and actions that they are bound to, the repeat of a held arrow
//! key, the blink of the caret and the scrolling of a drag past an edge. Timers and the speed of
//! the repeat are left to the caller.

use crate::editor::CodeEditor;
use crate::text;
use vstd::prelude::*;

verus! {

broadcast use vstd::seq_lib::group_seq_properties;

/// The context of an editor of several lines.
pub const CONTEXT: &'static str = "CodeEditor";

/// The context of a single-line input, which leaves enter, up and down to its surroundings.
pub const CONTEXT_SINGLE: &'static str = "CodeInput";

#[derive(Debug, Clone, Copy, PartialEq, Eq, Structural)]
pub enum EditAction {
    Backspace,
    DeleteToHome,
    Delete,
    Left,
    Right,
    Home,
    End,
    SelectLeft,
    SelectRight,
    SelectAll,
    Paste,
    Copy,
    Cut,
    Undo,
    Redo,
    Indent,
    Outdent,
    Up,
    Down,
    SelectUp,
    SelectDown,
    Enter,
}

// ---------------------------------------------------------------------------
// Bindings
// ---------------------------------------------------------------------------

/// The keys of every editor.
pub open spec fn shared_bindings() -> Seq<(Seq<char>, EditAction)> {
    seq![
        ("backspace"@, EditAction::Backspace),
        ("shift-backspace"@, EditAction::Backspace),
        ("cmd-backspace"@, EditAction::DeleteToHome),
        ("delete"@, EditAction::Delete),
        ("left"@, EditAction::Left),
        ("right"@, EditAction::Right),
        ("home"@, EditAction::Home),
        ("end"@, EditAction::End),
        ("cmd-left"@, EditAction::Home),
        ("cmd-right"@, EditAction::End),
        ("shift-left"@, EditAction::SelectLeft),
        ("shift-right"@, EditAction::SelectRight),
        ("cmd-a"@, EditAction::SelectAll),
        ("cmd-v"@, EditAction::Paste),
        ("cmd-c"@, EditAction::Copy),
        ("cmd-x"@, EditAction::Cut),
        ("cmd-z"@, EditAction::Undo),
        ("cmd-shift-z"@, EditAction::Redo),
        ("tab"@, EditAction::Indent),
        ("shift-tab"@, EditAction::Outdent),
    ]
}

/// The keys of editors of several lines only.
pub open spec fn line_bindings() -> Seq<(Seq<char>, EditAction)> {
    seq![
        ("up"@, EditAction::Up),
        ("down"@, EditAction::Down),
        ("shift-up"@, EditAction::SelectUp),
        ("shift-down"@, EditAction::SelectDown),
        ("enter"@, EditAction::Enter),
    ]
}

pub open spec fn bindings_view(v: Seq<(&'static str, EditAction)>) -> Seq<
    (Seq<char>, EditAction),
> {
    Seq::new(v.len(), |i: int| (v[i].0@, v[i].1))
}

/// The keys of an editor, with what they do.
pub fn bindings(single_line: bool) -> (r: Vec<(&'static str, EditAction)>)
    ensures
        bindings_view(r@) == if single_line {
            shared_bindings()
        } else {
            shared_bindings() + line_bindings()
        },
{
    let mut keys: Vec<(&'static str, EditAction)> =
        vec![
        ("backspace", EditAction::Backspace),
        ("shift-backspace", EditAction::Backspace),
        ("cmd-backspace", EditAction::DeleteToHome),
        ("delete", EditAction::Delete),
        ("left", EditAction::Left),
        ("right", EditAction::Right),
        ("home", EditAction::Home),
        ("end", EditAction::End),
        ("cmd-left", EditAction::Home),
        ("cmd-right", EditAction::End),
        ("shift-left", EditAction::SelectLeft),
        ("shift-right", EditAction::SelectRight),
        ("cmd-a", EditAction::SelectAll),
        ("cmd-v", EditAction::Paste),
        ("cmd-c", EditAction::Copy),
        ("cmd-x", EditAction::Cut),
        ("cmd-z", EditAction::Undo),
        ("cmd-shift-z", EditAction::Redo),
        ("tab", EditAction::Indent),
        ("shift-tab", EditAction::Outdent),
    ];
    proof {
        assert(bindings_view(keys@) =~= shared_bindings());
    }
    if !single_line {
        let mut more: Vec<(&'static str, EditAction)> =
            vec![
            ("up", EditAction::Up),
            ("down", EditAction::Down),
            ("shift-up", EditAction::SelectUp),
            ("shift-down", EditAction::SelectDown),
            ("enter", EditAction::Enter),
        ];
        proof {
            assert(bindings_view(more@) =~= line_bindings());
        }
        keys.append(&mut more);
        proof {
            assert(bindings_view(keys@) =~= shared_bindings() + line_bindings());
        }
    }
    keys
}

/// No key of a single-line input enters a line or moves between lines.
pub proof fn lemma_single_line_keys(i: int)
    requires
        0 <= i < shared_bindings().len(),
    ensures
        !(shared_bindings()[i].1 is Enter),
        !(shared_bindings()[i].1 is Up),
        !(shared_bindings()[i].1 is Down),
        !(shared_bindings()[i].1 is SelectUp),
        !(shared_bindings()[i].1 is SelectDown),
{
}

impl CodeEditor {
    /// The contexts of this editor: its own, and a further one if it has one.
    pub open spec fn contexts(&self) -> Seq<char> {
        let base = if self.single_line {
            CONTEXT_SINGLE@
        } else {
            CONTEXT@
        };
        match self.ctx_override {
            Some(o) => base + seq![' '] + o@,
            None => base,
        }
    }

    /// The contexts in which this editor's keys are looked up. A further context goes next to
    /// the editor's own, so that the keys for editing stay.
    pub fn key_context(&self) -> (r: String)
        ensures
            r@ == self.contexts(),
    {
        let base: &'static str = if self.single_line {
            CONTEXT_SINGLE
        } else {
            CONTEXT
        };
        let mut s = String::from_str(base);
        if let Some(o) = &self.ctx_override {
            let ghost before = s@;
            s.append(" ");
            s.append(o.as_str());
            proof {
                reveal_strlit(" ");
                assert(" "@ =~= seq![' ']);
                assert(s@ =~= before + seq![' '] + o@);
            }
        }
        s
    }

    /// Whether the editor takes an action: moves between lines, line breaks and indents are left
    /// by a single-line input to its surroundings.
    pub fn handles(&self, a: EditAction) -> (r: bool)
        ensures
            r == handled(self.single_line, a),
    {
        if !self.single_line {
            return true;
        }
        match a {
            EditAction::Up => false,
            EditAction::Down => false,
            EditAction::SelectUp => false,
            EditAction::SelectDown => false,
            EditAction::Enter => false,
            EditAction::Indent => false,
            EditAction::Outdent => false,
            _ => true,
        }
    }

    /// Whether the editor fills its parent: single-line inputs do, and those set to.
    pub fn fills(&self) -> (r: bool)
        ensures
            r == (self.single_line || self.fill_height),
    {
        self.single_line || self.fill_height
    }
}

// ---------------------------------------------------------------------------
// The repeat of a held arrow key
// ---------------------------------------------------------------------------

/// The arrow key that is held.
#[derive(Debug, Clone, Copy, PartialEq, Eq, Structural)]
pub struct Held {
    pub down: bool,
    /// Shift is held too, so the selection is extended.
    pub extend: bool,
}

/// What a key press means for the repeat.
#[derive(Debug, Clone, Copy, PartialEq, Eq, Structural)]
pub enum Press {
    Ignored,
    /// The repeat that runs starts over from its first speed.
    Again,
    /// A repeat is to be started.
    Start,
}

#[derive(Debug, Clone, Copy, PartialEq, Eq, Structural)]
pub struct NavRepeat {
    pub held: Option<Held>,
    /// A repeat runs, so none is started.
    pub active: bool,
}

/// Whether an editor does something about an action: one of a single line has no lines to move
/// between, to begin or to shift.
pub open spec fn handled(single_line: bool, a: EditAction) -> bool {
    !(single_line && (a == EditAction::Up || a == EditAction::Down || a == EditAction::SelectUp || a
        == EditAction::SelectDown || a == EditAction::Enter || a == EditAction::Indent || a
        == EditAction::Outdent))
}

/// An editor of several lines handles every action; one of a single line handles just those that
/// stay within a line.
pub proof fn lemma_handled(a: EditAction)
    ensures
        handled(false, a),
        handled(true, a) <==> match a {
            EditAction::Up | EditAction::Down | EditAction::SelectUp | EditAction::SelectDown => {
                false
            },
            EditAction::Enter | EditAction::Indent | EditAction::Outdent => false,
            _ => true,
        },
{
}

/// The direction of an arrow key for vertical moves.
pub open spec fn arrow(key: Seq<char>) -> Option<bool> {
    if key == "down"@ {
        Some(true)
    } else if key == "up"@ {
        Some(false)
    } else {
        None
    }
}

fn arrow_of(key: &str) -> (r: Option<bool>)
    ensures
        r == arrow(key@),
{
    if text::str_eq(key, "down") {
        Some(true)
    } else if text::str_eq(key, "up") {
        Some(false)
    } else {
        None
    }
}

impl NavRepeat {
    pub fn new() -> (r: Self)
        ensures
            r == (NavRepeat { held: None, active: false }),
    {
        NavRepeat { held: None, active: false }
    }

    /// A key went down. `is_held` tells a repeat of the system, which is left alone.
    pub fn on_key_down_nav(&mut self, single_line: bool, key: &str, is_held: bool, shift: bool) -> (r:
        Press)
        ensures
            match arrow(key@) {
                Some(down) if !single_line && !is_held => {
                    &&& *final(self) == (NavRepeat {
                        held: Some(Held { down, extend: shift }),
                        active: true,
                    })
                    &&& r == if old(self).active {
                        Press::Again
                    } else {
                        Press::Start
                    }
                },
                _ => *final(self) == *old(self) && r == Press::Ignored,
            },
    {
        if single_line || is_held {
            return Press::Ignored;
        }
        match arrow_of(key) {
            Some(down) => {
                self.held = Some(Held { down, extend: shift });
                if self.active {
                    Press::Again
                } else {
                    self.active = true;
                    Press::Start
                }
            },
            None => Press::Ignored,
        }
    }

    /// A key went up. Only the arrow that is held ends the repeat.
    pub fn on_key_up_nav(&mut self, key: &str)
        ensures
            final(self).active == old(self).active,
            final(self).held == (match (old(self).held, arrow(key@)) {
                (Some(h), Some(down)) if h.down == down => None,
                _ => old(self).held,
            }),
    {
        if let (Some(h), Some(down)) = (self.held, arrow_of(key)) {
            if h.down == down {
                self.held = None;
            }
        }
    }

    /// A tick of the repeat. Returns the move to make; without one the repeat is over.
    pub fn tick(&mut self) -> (r: Option<Held>)
        ensures
            r == old(self).held,
            final(self).held == old(self).held,
            final(self).active == (old(self).active && r is Some),
    {
        if self.held.is_none() {
            self.active = false;
        }
        self.held
    }
}

// ---------------------------------------------------------------------------
// The blink of the caret
// ---------------------------------------------------------------------------

#[derive(Debug, Clone, Copy, PartialEq, Eq, Structural)]
pub struct Blink {
    pub on: bool,
    /// The number of the blink that runs. Those before it are over.
    pub epoch: usize,
    pub started: bool,
}

/// The number of the blink after the one with this number.
pub open spec fn next_epoch(epoch: usize) -> usize {
    if epoch == usize::MAX {
        0
    } else {
        (epoch + 1) as usize
    }
}

impl Blink {
    pub fn new() -> (r: Self)
        ensures
            r == (Blink { on: true, epoch: 0, started: false }),
    {
        Blink { on: true, epoch: 0, started: false }
    }

    /// Shows the caret and starts a new blink. Returns its number.
    pub fn restart_blink(&mut self) -> (r: usize)
        ensures
            r == next_epoch(old(self).epoch),
            *final(self) == (Blink { on: true, epoch: r, ..*old(self) }),
    {
        self.on = true;
        self.epoch = self.epoch.wrapping_add(1);
        self.epoch
    }

    /// The editor is shown. The first time, a blink is to run, whose number is returned.
    pub fn begin(&mut self) -> (r: Option<usize>)
        ensures
            old(self).started ==> r is None && *final(self) == *old(self),
            !old(self).started ==> {
                &&& final(self).started
                &&& final(self).on
                &&& final(self).epoch == next_epoch(old(self).epoch)
                &&& r == Some(final(self).epoch)
            },
    {
        if self.started {
            return None;
        }
        self.started = true;
        Some(self.restart_blink())
    }

    /// Half a cycle of the blink with this number is over. Returns whether it goes on.
    pub fn tick(&mut self, epoch: usize) -> (r: bool)
        ensures
            r == (epoch == old(self).epoch),
            *final(self) == (if r {
                Blink { on: !old(self).on, ..*old(self) }
            } else {
                *old(self)
            }),
    {
        if epoch != self.epoch {
            return false;
        }
        self.on = !self.on;
        true
    }
}

// ---------------------------------------------------------------------------
// A drag past an edge
// ---------------------------------------------------------------------------

#[derive(Debug, Clone, Copy, PartialEq, Eq, Structural)]
pub struct AutoScroll {
    pub active: bool,
}

impl AutoScroll {
    /// A drag went past an edge. Returns whether scrolling is to be started.
    pub fn start_autoscroll(&mut self) -> (r: bool)
        ensures
            r == !old(self).active,
            final(self).active,
    {
        let r = !self.active;
        self.active = true;
        r
    }

    /// A tick of the scrolling: whether the drag goes on, and whether the view moved. Returns
    /// whether the scrolling goes on.
    pub fn tick(&mut self, dragging: bool, moved: bool) -> (r: bool)
        ensures
            r == (dragging && moved),
            final(self).active == (old(self).active && r),
    {
        let r = dragging && moved;
        if !r {
            self.active = false;
        }
        r
    }
}

/// Which keys do what, key by key: in every editor, and in editors of several lines besides.
pub proof fn lemma_bound_keys()
    ensures
        shared_bindings().contains(("backspace"@, EditAction::Backspace)),
        shared_bindings().contains(("shift-backspace"@, EditAction::Backspace)),
        shared_bindings().contains(("cmd-backspace"@, EditAction::DeleteToHome)),
        shared_bindings().contains(("delete"@, EditAction::Delete)),
        shared_bindings().contains(("left"@, EditAction::Left)),
        shared_bindings().contains(("right"@, EditAction::Right)),
        shared_bindings().contains(("home"@, EditAction::Home)),
        shared_bindings().contains(("end"@, EditAction::End)),
        shared_bindings().contains(("cmd-left"@, EditAction::Home)),
        shared_bindings().contains(("cmd-right"@, EditAction::End)),
        shared_bindings().contains(("shift-left"@, EditAction::SelectLeft)),
        shared_bindings().contains(("shift-right"@, EditAction::SelectRight)),
        shared_bindings().contains(("cmd-a"@, EditAction::SelectAll)),
        shared_bindings().contains(("cmd-v"@, EditAction::Paste)),
        shared_bindings().contains(("cmd-c"@, EditAction::Copy)),
        shared_bindings().contains(("cmd-x"@, EditAction::Cut)),
        shared_bindings().contains(("cmd-z"@, EditAction::Undo)),
        shared_bindings().contains(("cmd-shift-z"@, EditAction::Redo)),
        shared_bindings().contains(("tab"@, EditAction::Indent)),
        shared_bindings().contains(("shift-tab"@, EditAction::Outdent)),
        line_bindings().contains(("up"@, EditAction::Up)),
        line_bindings().contains(("down"@, EditAction::Down)),
        line_bindings().contains(("shift-up"@, EditAction::SelectUp)),
        line_bindings().contains(("shift-down"@, EditAction::SelectDown)),
        line_bindings().contains(("enter"@, EditAction::Enter)),
        shared_bindings().len() == 20,
        line_bindings().len() == 5,
{
    let s = shared_bindings();
    let l = line_bindings();
    assert(s[0] == ("backspace"@, EditAction::Backspace));
    assert(s[1] == ("shift-backspace"@, EditAction::Backspace));
    assert(s[2] == ("cmd-backspace"@, EditAction::DeleteToHome));
    assert(s[3] == ("delete"@, EditAction::Delete));
    assert(s[4] == ("left"@, EditAction::Left));
    assert(s[5] == ("right"@, EditAction::Right));
    assert(s[6] == ("home"@, EditAction::Home));
    assert(s[7] == ("end"@, EditAction::End));
    assert(s[8] == ("cmd-left"@, EditAction::Home));
    assert(s[9] == ("cmd-right"@, EditAction::End));
    assert(s[10] == ("shift-left"@, EditAction::SelectLeft));
    assert(s[11] == ("shift-right"@, EditAction::SelectRight));
    assert(s[12] == ("cmd-a"@, EditAction::SelectAll));
    assert(s[13] == ("cmd-v"@, EditAction::Paste));
    assert(s[14] == ("cmd-c"@, EditAction::Copy));
    assert(s[15] == ("cmd-x"@, EditAction::Cut));
    assert(s[16] == ("cmd-z"@, EditAction::Undo));
    assert(s[17] == ("cmd-shift-z"@, EditAction::Redo));
    assert(s[18] == ("tab"@, EditAction::Indent));
    assert(s[19] == ("shift-tab"@, EditAction::Outdent));
    assert(l[0] == ("up"@, EditAction::Up));
    assert(l[1] == ("down"@, EditAction::Down));
    assert(l[2] == ("shift-up"@, EditAction::SelectUp));
    assert(l[3] == ("shift-down"@, EditAction::SelectDown));
    assert(l[4] == ("enter"@, EditAction::Enter));
}

/// Of the keys only `down` and `up` move from line to line, one each way.
pub proof fn lemma_arrow(key: Seq<char>)
    ensures
        arrow(key) == Some(true) <==> key == "down"@,
        arrow(key) == Some(false) <==> key == "up"@,
{
    reveal_strlit("down");
    reveal_strlit("up");
    assert("down"@.len() == 4 && "up"@.len() == 2);
}

/// Blinks are numbered one after the other, and from the last number on from zero.
pub proof fn lemma_next_epoch(epoch: usize)
    ensures
        epoch < usize::MAX ==> next_epoch(epoch) == epoch + 1,
        next_epoch(epoch) == 0 <==> epoch == usize::MAX,
        next_epoch(epoch) != epoch,
{
}

/// An editor is known by what it is, and by what it is for where that is said.
pub proof fn lemma_contexts(e: CodeEditor)
    ensures
        e.ctx_override is None && e.single_line ==> e.contexts() == "CodeInput"@,
        e.ctx_override is None && !e.single_line ==> e.contexts() == "CodeEditor"@,
        e.ctx_override matches Some(o) ==> e.single_line ==> e.contexts() == "CodeInput"@.push(' ')
            + o@,
        e.ctx_override matches Some(o) ==> !e.single_line ==> e.contexts() == "CodeEditor"@.push(
            ' ',
        ) + o@,
{
    if let Some(o) = e.ctx_override {
        assert("CodeInput"@ + seq![' '] + o@ =~= "CodeInput"@.push(' ') + o@);
        assert("CodeEditor"@ + seq![' '] + o@ =~= "CodeEditor"@.push(' ') + o@);
    }
}

} // verus!
