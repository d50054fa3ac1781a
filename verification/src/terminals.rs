//! The tabs of the terminal panel.

use vstd::prelude::*;

verus! {

/// The terminal panel and its tabs, each known by a number.
pub struct Terminals {
    pub tabs: Vec<u64>,
    pub active: usize,
    pub open: bool,
    pub maximized: bool,
}

/// The position that is active after one of `n` tabs was closed: the same, or the last one there
/// is.
pub open spec fn active_after_close(active: int, n: nat) -> int {
    if active < n - 1 {
        active
    } else {
        n - 2
    }
}

/// The active position is one of the tabs that are left, and moves only if there is no tab at it
/// any more.
pub proof fn lemma_active_after_close(active: int, n: nat)
    requires
        0 <= active < n,
        n > 1,
    ensures
        0 <= active_after_close(active, n) < n - 1,
        active_after_close(active, n) != active <==> active == n - 1,
        active_after_close(active, n) >= active - 1,
{
}

impl Terminals {
    /// The active tab is one of the tabs.
    pub open spec fn wf(&self) -> bool {
        if self.tabs@.len() == 0 {
            self.active == 0
        } else {
            self.active < self.tabs@.len()
        }
    }

    pub fn new(maximized: bool) -> (r: Self)
        ensures
            r.wf(),
            r.tabs@.len() == 0,
            !r.open,
            r.maximized == maximized,
    {
        Terminals { tabs: Vec::new(), active: 0, open: false, maximized }
    }

    /// A tab is added and becomes the active one.
    pub fn new_terminal_tab(&mut self, id: u64)
        requires
            old(self).wf(),
        ensures
            final(self).wf(),
            final(self).tabs@ == old(self).tabs@.push(id),
            final(self).active == old(self).tabs@.len(),
            final(self).open == old(self).open,
            final(self).maximized == old(self).maximized,
    {
        self.tabs.push(id);
        self.active = self.tabs.len() - 1;
    }

    /// Opens the panel, with a first tab `id` if there is none, or closes it. `maximized` is how
    /// it was when it was last open. Returns whether a tab was added.
    pub fn act_toggle_terminal(&mut self, id: u64, maximized: bool) -> (r: bool)
        requires
            old(self).wf(),
        ensures
            final(self).wf(),
            final(self).open == !old(self).open,
            r == (!old(self).open && old(self).tabs@.len() == 0),
            final(self).tabs@ == if r {
                old(self).tabs@.push(id)
            } else {
                old(self).tabs@
            },
            final(self).active == old(self).active,
            final(self).maximized == (final(self).open && maximized),
    {
        self.open = !self.open;
        let mut added = false;
        if self.open {
            if self.tabs.len() == 0 {
                self.new_terminal_tab(id);
                added = true;
            }
            self.maximized = maximized;
        } else {
            self.maximized = false;
        }
        added
    }

    /// A tab is added; the panel is opened if it is not.
    pub fn act_new_terminal_tab(&mut self, id: u64)
        requires
            old(self).wf(),
        ensures
            final(self).wf(),
            final(self).open,
            final(self).tabs@ == old(self).tabs@.push(id),
            final(self).active == old(self).tabs@.len(),
            final(self).maximized == old(self).maximized,
    {
        self.open = true;
        self.new_terminal_tab(id);
    }

    /// Closes the tab at `idx`. With the last one the panel closes.
    pub fn close_terminal_tab(&mut self, idx: usize)
        requires
            old(self).wf(),
        ensures
            final(self).wf(),
            idx >= old(self).tabs@.len() ==> *final(self) == *old(self),
            idx < old(self).tabs@.len() ==> {
                &&& final(self).tabs@ == old(self).tabs@.remove(idx as int)
                &&& old(self).tabs@.len() == 1 ==> !final(self).open && !final(self).maximized
                    && final(self).active == 0
                &&& old(self).tabs@.len() > 1 ==> {
                    &&& final(self).open == old(self).open
                    &&& final(self).maximized == old(self).maximized
                    &&& final(self).active == active_after_close(
                        old(self).active as int,
                        old(self).tabs@.len(),
                    )
                }
            },
    {
        if idx >= self.tabs.len() {
            return;
        }
        let _ = self.tabs.remove(idx);
        if self.tabs.len() == 0 {
            self.open = false;
            self.maximized = false;
            self.active = 0;
        } else if self.active >= self.tabs.len() {
            self.active = self.tabs.len() - 1;
        }
    }

    /// The position of a tab.
    pub fn tab_position(&self, id: u64) -> (r: Option<usize>)
        ensures
            match r {
                Some(i) => i < self.tabs@.len() && self.tabs@[i as int] == id && forall|k: int|
                    0 <= k < i ==> self.tabs@[k] != id,
                None => !self.tabs@.contains(id),
            },
    {
        let mut i: usize = 0;
        while i < self.tabs.len()
            invariant
                i <= self.tabs@.len(),
                forall|k: int| 0 <= k < i ==> self.tabs@[k] != id,
            decreases self.tabs@.len() - i,
        {
            if self.tabs[i] == id {
                return Some(i);
            }
            i += 1;
        }
        None
    }
}

} // verus!
