//! The terminal tabs of the bottom panel: each tab a tree of split panes
//! with an active pane, optionally zoomed to that pane alone; tabs are
//! added, split, closed, zoomed and walked through. Panes are named by
//! the ids of their terminals.
use crate::pane_group::{
    adjacent_pane, first_index, insert_next_to, lemma_well_formed_axes_nonempty, panes_of, remove_first,
    removal_shape, split_anchor, split_shape, well_formed, Member, PaneGroup, SplitDirection,
};
use crate::workspace::cycled_index;
use vstd::prelude::*;

verus! {

/// A tab: its panes, the pane with focus, and the full layout stashed
/// while the tab is zoomed to one pane.
#[derive(Debug)]
pub struct TerminalTab {
    pub pane_group: PaneGroup,
    pub active_pane: Option<u64>,
    pub zoomed_pane_group: Option<PaneGroup>,
}

/// The tabs of the bottom panel and which one is shown.
#[derive(Debug)]
pub struct TerminalTabs {
    pub tabs: Vec<TerminalTab>,
    pub active_tab_index: usize,
}

/// The pane trees of a tab keep their shape.
pub open spec fn tab_ok(t: TerminalTab) -> bool {
    &&& well_formed(t.pane_group.root)
    &&& match t.zoomed_pane_group {
        Some(z) => well_formed(z.root),
        None => true,
    }
}

/// What closing the active pane did.
#[derive(Clone, Copy, Debug, PartialEq, Eq, Structural)]
pub enum PaneClose {
    /// There was no active pane.
    Nothing,
    /// The pane went; another pane of its tab is active.
    PaneClosed,
    /// The pane was its tab's last: the tab went.
    TabClosed,
    /// The pane was the last of the last tab: no tab is left and a fresh
    /// one is wanted.
    LastTabClosed,
}

/// A tab after zoom is toggled: a zoomed tab gets its stashed layout
/// back; a split tab with an active pane shows that pane alone and stashes
/// its layout; any other tab stays as it is.
pub open spec fn toggled(t: TerminalTab) -> TerminalTab {
    match t.zoomed_pane_group {
        Some(full) => TerminalTab { pane_group: full, active_pane: t.active_pane, zoomed_pane_group: None },
        None => if t.active_pane is Some && t.pane_group.root is Axis {
            TerminalTab {
                pane_group: PaneGroup { root: Member::Pane(t.active_pane->0) },
                active_pane: t.active_pane,
                zoomed_pane_group: Some(t.pane_group),
            }
        } else {
            t
        },
    }
}

impl TerminalTabs {
    /// Every tab keeps the shape of its trees, and the shown tab exists
    /// when any does.
    pub open spec fn valid(&self) -> bool {
        &&& forall|i: int| 0 <= i < self.tabs@.len() ==> tab_ok(#[trigger] self.tabs@[i])
        &&& (self.tabs@.len() == 0 || self.active_tab_index < self.tabs@.len())
    }

    /// The panes of the shown tab's current layout, if there is a tab.
    pub open spec fn active_panes(&self) -> Seq<u64> {
        if self.active_tab_index < self.tabs@.len() {
            panes_of(self.tabs@[self.active_tab_index as int].pane_group.root)
        } else {
            Seq::empty()
        }
    }

    /// No tabs.
    pub fn new() -> (r: Self)
        ensures
            r.valid(),
            r.tabs@.len() == 0,
            r.active_tab_index == 0,
    {
        TerminalTabs { tabs: Vec::new(), active_tab_index: 0 }
    }

    /// Adds a tab holding the single pane `pane` and shows it.
    pub fn add_tab(&mut self, pane: u64)
        requires
            old(self).valid(),
        ensures
            final(self).valid(),
            final(self).tabs@.len() == old(self).tabs@.len() + 1,
            final(self).active_tab_index == old(self).tabs@.len(),
            final(self).tabs@.subrange(0, old(self).tabs@.len() as int) == old(self).tabs@,
            final(self).tabs@.last().pane_group.root == Member::Pane(pane),
            final(self).tabs@.last().active_pane == Some(pane),
            final(self).tabs@.last().zoomed_pane_group is None,
    {
        let group = PaneGroup::new(pane);
        self.tabs.push(TerminalTab { pane_group: group, active_pane: Some(pane), zoomed_pane_group: None });
        self.active_tab_index = self.tabs.len() - 1;
        assert(self.tabs@.subrange(0, old(self).tabs@.len() as int) =~= old(self).tabs@);
        assert(forall|i: int| 0 <= i < old(self).tabs@.len() ==> self.tabs@[i] == old(self).tabs@[i]);
    }

    /// Splits the shown tab's active pane (its first pane when none is
    /// active) with the new pane `new_pane`, after leaving zoom; the new
    /// pane becomes active. With no tab, a tab holding the new pane is
    /// added.
    pub fn split_active(&mut self, new_pane: u64, direction: SplitDirection)
        requires
            old(self).valid(),
        ensures
            final(self).valid(),
            old(self).tabs@.len() == 0 ==> {
                &&& final(self).tabs@.len() == 1
                &&& final(self).active_tab_index == 0
                &&& final(self).tabs@[0].pane_group.root == Member::Pane(new_pane)
                &&& final(self).tabs@[0].active_pane == Some(new_pane)
                &&& final(self).tabs@[0].zoomed_pane_group is None
            },
            old(self).tabs@.len() > 0 ==> {
                let k = old(self).active_tab_index as int;
                let t = old(self).tabs@[k];
                let full = match t.zoomed_pane_group {
                    Some(z) => z.root,
                    None => t.pane_group.root,
                };
                let anchor = match t.active_pane {
                    Some(a) => a,
                    None => panes_of(full)[0],
                };
                &&& final(self).tabs@.len() == old(self).tabs@.len()
                &&& final(self).active_tab_index == old(self).active_tab_index
                &&& forall|j: int| 0 <= j < old(self).tabs@.len() && j != k ==> #[trigger] final(self).tabs@[j]
                    == old(self).tabs@[j]
                &&& panes_of(final(self).tabs@[k].pane_group.root) == insert_next_to(
                    panes_of(full),
                    split_anchor(full, anchor),
                    new_pane,
                    direction.spec_increasing(),
                )
                &&& split_shape(full, final(self).tabs@[k].pane_group.root, split_anchor(full, anchor), new_pane, direction)
                &&& final(self).tabs@[k].active_pane == Some(new_pane)
                &&& final(self).tabs@[k].zoomed_pane_group is None
            },
    {
        if self.tabs.len() == 0 {
            self.add_tab(new_pane);
            return;
        }
        let k = self.active_tab_index;
        let ghost before = self.tabs@;
        let mut tab = self.tabs.remove(k);
        proof {
            assert(tab == before[k as int]);
            assert(tab_ok(tab));
        }
        let mut group = match tab.zoomed_pane_group {
            Some(z) => z,
            None => tab.pane_group,
        };
        proof {
            lemma_well_formed_axes_nonempty(group.root);
        }
        let anchor = match tab.active_pane {
            Some(a) => a,
            None => group.first_pane(),
        };
        group.split(anchor, new_pane, direction);
        self.tabs.insert(k, TerminalTab { pane_group: group, active_pane: Some(new_pane), zoomed_pane_group: None });
        assert(self.tabs@ =~= before.update(k as int, self.tabs@[k as int]));
    }

    /// Closes the shown tab's active pane: the tab's first remaining pane
    /// becomes active and zoom ends; when it was the tab's last pane (as
    /// the tree's removal answers), the tab goes and the shown tab stays in
    /// range.
    pub fn close_active_pane(&mut self) -> (r: PaneClose)
        requires
            old(self).valid(),
        ensures
            final(self).valid(),
            old(self).tabs@.len() == 0 || old(self).tabs@[old(self).active_tab_index as int].active_pane is None
                ==> r == PaneClose::Nothing && final(self).tabs@ == old(self).tabs@
                && final(self).active_tab_index == old(self).active_tab_index,
            r == PaneClose::PaneClosed ==> {
                let k = old(self).active_tab_index as int;
                let t = old(self).tabs@[k];
                &&& final(self).tabs@.len() == old(self).tabs@.len()
                &&& final(self).active_tab_index == old(self).active_tab_index
                &&& forall|j: int| 0 <= j < old(self).tabs@.len() && j != k ==> #[trigger] final(self).tabs@[j]
                    == old(self).tabs@[j]
                &&& (t.pane_group.root is Axis ==> panes_of(final(self).tabs@[k].pane_group.root)
                    == remove_first(panes_of(t.pane_group.root), t.active_pane->0))
                &&& (t.pane_group.root is Axis ==> removal_shape(
                    t.pane_group.root->Axis_0,
                    final(self).tabs@[k].pane_group.root,
                    t.active_pane->0,
                ))
                &&& (t.pane_group.root is Pane ==> final(self).tabs@[k].pane_group == t.pane_group)
                &&& final(self).tabs@[k].active_pane == Some(panes_of(final(self).tabs@[k].pane_group.root)[0])
                &&& final(self).tabs@[k].zoomed_pane_group is None
            },
            r == PaneClose::TabClosed || r == PaneClose::LastTabClosed ==> {
                let k = old(self).active_tab_index as int;
                &&& final(self).tabs@ == old(self).tabs@.remove(k)
                &&& (r == PaneClose::LastTabClosed <==> final(self).tabs@.len() == 0)
                &&& (final(self).tabs@.len() > 0 ==> final(self).active_tab_index == (if k
                    < final(self).tabs@.len() {
                    k
                } else {
                    final(self).tabs@.len() - 1
                }))
            },
            old(self).tabs@.len() > 0 && old(self).tabs@[old(self).active_tab_index as int].active_pane is Some
                ==> {
                let t = old(self).tabs@[old(self).active_tab_index as int];
                let still = match t.pane_group.root {
                    Member::Pane(p) => p != t.active_pane->0,
                    Member::Axis(_) => panes_of(t.pane_group.root).contains(t.active_pane->0),
                };
                &&& (still ==> r == PaneClose::PaneClosed)
                &&& (!still ==> r == PaneClose::TabClosed || r == PaneClose::LastTabClosed)
            },
    {
        if self.tabs.len() == 0 {
            return PaneClose::Nothing;
        }
        let k = self.active_tab_index;
        let active = match self.tabs[k].active_pane {
            Some(a) => a,
            None => return PaneClose::Nothing,
        };
        let ghost before = self.tabs@;
        let mut tab = self.tabs.remove(k);
        proof {
            assert(tab == before[k as int]);
            assert(tab_ok(tab));
        }
        let still = tab.pane_group.remove(active);
        if still {
            proof {
                lemma_well_formed_axes_nonempty(tab.pane_group.root);
            }
            let first = tab.pane_group.first_pane();
            tab.active_pane = Some(first);
            tab.zoomed_pane_group = None;
            self.tabs.insert(k, tab);
            assert(self.tabs@ =~= before.update(k as int, self.tabs@[k as int]));
            return PaneClose::PaneClosed;
        }
        assert(self.tabs@ =~= before.remove(k as int));
        if self.tabs.len() == 0 {
            return PaneClose::LastTabClosed;
        }
        if self.active_tab_index >= self.tabs.len() {
            self.active_tab_index = self.tabs.len() - 1;
        }
        PaneClose::TabClosed
    }

    /// Keeps only the shown tab.
    pub fn close_other_tabs(&mut self)
        requires
            old(self).valid(),
        ensures
            final(self).valid(),
            old(self).tabs@.len() == 0 ==> final(self).tabs@ == old(self).tabs@ && final(self).active_tab_index
                == old(self).active_tab_index,
            old(self).tabs@.len() > 0 ==> final(self).tabs@ == seq![
                old(self).tabs@[old(self).active_tab_index as int],
            ] && final(self).active_tab_index == 0,
    {
        if self.tabs.len() == 0 {
            return;
        }
        let ghost before = self.tabs@;
        let active = self.tabs.remove(self.active_tab_index);
        let mut tabs: Vec<TerminalTab> = Vec::new();
        tabs.push(active);
        self.tabs = tabs;
        self.active_tab_index = 0;
        assert(self.tabs@ =~= seq![before[old(self).active_tab_index as int]]);
    }

    /// Closes every tab.
    pub fn close_all_tabs(&mut self)
        ensures
            final(self).valid(),
            final(self).tabs@.len() == 0,
            final(self).active_tab_index == 0,
    {
        self.tabs = Vec::new();
        self.active_tab_index = 0;
    }

    /// Zooms the shown tab to its active pane, stashing the layout, when it
    /// is split; a zoomed tab gets its layout back.
    pub fn toggle_zoom(&mut self)
        requires
            old(self).valid(),
        ensures
            final(self).valid(),
            final(self).active_tab_index == old(self).active_tab_index,
            final(self).tabs@.len() == old(self).tabs@.len(),
            old(self).tabs@.len() > 0 ==> {
                let k = old(self).active_tab_index as int;
                let t = old(self).tabs@[k];
                &&& forall|j: int| 0 <= j < old(self).tabs@.len() && j != k ==> #[trigger] final(self).tabs@[j]
                    == old(self).tabs@[j]
                &&& final(self).tabs@[k] == toggled(t)
            },
            old(self).tabs@.len() == 0 ==> final(self).tabs@ == old(self).tabs@,
    {
        if self.tabs.len() == 0 {
            return;
        }
        let k = self.active_tab_index;
        let ghost before = self.tabs@;
        let mut tab = self.tabs.remove(k);
        proof {
            assert(tab == before[k as int]);
            assert(tab_ok(tab));
        }
        match tab.zoomed_pane_group {
            Some(full) => {
                tab = TerminalTab { pane_group: full, active_pane: tab.active_pane, zoomed_pane_group: None };
            },
            None => {
                match tab.active_pane {
                    Some(a) => {
                        if tab.pane_group.is_split() {
                            let single = PaneGroup::new(a);
                            tab = TerminalTab {
                                pane_group: single,
                                active_pane: Some(a),
                                zoomed_pane_group: Some(tab.pane_group),
                            };
                        } else {
                            tab = TerminalTab { pane_group: tab.pane_group, active_pane: Some(a), zoomed_pane_group: None };
                        }
                    },
                    None => {
                        tab = TerminalTab { pane_group: tab.pane_group, active_pane: None, zoomed_pane_group: None };
                    },
                }
            },
        }
        self.tabs.insert(k, tab);
        assert(self.tabs@ =~= before.update(k as int, self.tabs@[k as int]));
    }

    /// Moves the focus `delta` panes on within the shown tab (in depth
    /// first order, wrapping around, from the active pane or the first
    /// one); nothing changes in a tab of fewer than two panes.
    pub fn cycle_pane(&mut self, delta: i32)
        requires
            old(self).valid(),
            old(self).active_panes().len() <= i32::MAX,
        ensures
            final(self).valid(),
            final(self).active_tab_index == old(self).active_tab_index,
            final(self).tabs@.len() == old(self).tabs@.len(),
            old(self).active_panes().len() < 2 ==> final(self).tabs@ == old(self).tabs@,
            old(self).active_panes().len() >= 2 ==> {
                let k = old(self).active_tab_index as int;
                let t = old(self).tabs@[k];
                let ps = old(self).active_panes();
                let current = match t.active_pane {
                    Some(a) => if first_index(ps, a) < ps.len() {
                        first_index(ps, a)
                    } else {
                        0
                    },
                    None => 0,
                };
                &&& forall|j: int| 0 <= j < old(self).tabs@.len() && j != k ==> #[trigger] final(self).tabs@[j]
                    == old(self).tabs@[j]
                &&& final(self).tabs@[k].pane_group == t.pane_group
                &&& final(self).tabs@[k].zoomed_pane_group == t.zoomed_pane_group
                &&& final(self).tabs@[k].active_pane == Some(ps[cycled_index(current, ps.len() as int, delta as int)])
            },
    {
        if self.tabs.len() == 0 {
            return;
        }
        let k = self.active_tab_index;
        let panes = self.tabs[k].pane_group.panes();
        if panes.len() < 2 {
            return;
        }
        let mut current: usize = 0;
        match self.tabs[k].active_pane {
            Some(a) => {
                let mut i: usize = 0;
                while i < panes.len()
                    invariant
                        i <= panes@.len(),
                        forall|j: int| 0 <= j < i ==> panes@[j] != a,
                    ensures
                        i <= panes@.len(),
                        forall|j: int| 0 <= j < i ==> panes@[j] != a,
                        i < panes@.len() ==> panes@[i as int] == a,
                    decreases panes@.len() - i,
                {
                    if panes[i] == a {
                        break;
                    }
                    i = i + 1;
                }
                proof {
                    crate::pane_group::lemma_first_index(panes@, a);
                    if i < panes.len() {
                        assert(first_index(panes@, a) == i);
                    } else {
                        assert(!panes@.contains(a));
                    }
                }
                if i < panes.len() {
                    current = i;
                }
            },
            None => {},
        }
        let next = crate::workspace::next_pane_index(current, panes.len(), delta);
        let target = panes[next];
        let ghost before = self.tabs@;
        let mut tab = self.tabs.remove(k);
        proof {
            assert(tab == before[k as int]);
        }
        tab = TerminalTab { pane_group: tab.pane_group, active_pane: Some(target), zoomed_pane_group: tab.zoomed_pane_group };
        self.tabs.insert(k, tab);
        assert(self.tabs@ =~= before.update(k as int, self.tabs@[k as int]));
    }

    /// Moves the focus to the pane next to the active one in `direction`,
    /// when there is one.
    pub fn activate_pane_in_direction(&mut self, direction: SplitDirection)
        requires
            old(self).valid(),
        ensures
            final(self).valid(),
            final(self).active_tab_index == old(self).active_tab_index,
            final(self).tabs@.len() == old(self).tabs@.len(),
            ({
                let k = old(self).active_tab_index as int;
                let t = old(self).tabs@[k];
                let target = if old(self).tabs@.len() > 0 && t.active_pane is Some && panes_of(t.pane_group.root).len() >= 2 {
                    adjacent_pane(t.pane_group.root, t.active_pane->0, direction)
                } else {
                    None
                };
                match target {
                    None => final(self).tabs@ == old(self).tabs@,
                    Some(p) => {
                        &&& forall|j: int| 0 <= j < old(self).tabs@.len() && j != k ==> #[trigger] final(self).tabs@[j]
                            == old(self).tabs@[j]
                        &&& final(self).tabs@[k].pane_group == t.pane_group
                        &&& final(self).tabs@[k].zoomed_pane_group == t.zoomed_pane_group
                        &&& final(self).tabs@[k].active_pane == Some(p)
                    },
                }
            }),
    {
        if self.tabs.len() == 0 {
            return;
        }
        let k = self.active_tab_index;
        let active = match self.tabs[k].active_pane {
            Some(a) => a,
            None => return,
        };
        proof {
            assert(tab_ok(self.tabs@[k as int]));
            lemma_well_formed_axes_nonempty(self.tabs@[k as int].pane_group.root);
        }
        let target = match self.tabs[k].pane_group.find_pane_in_direction(active, direction) {
            Some(t) => t,
            None => return,
        };
        let ghost before = self.tabs@;
        let mut tab = self.tabs.remove(k);
        proof {
            assert(tab == before[k as int]);
        }
        tab = TerminalTab { pane_group: tab.pane_group, active_pane: Some(target), zoomed_pane_group: tab.zoomed_pane_group };
        self.tabs.insert(k, tab);
        assert(self.tabs@ =~= before.update(k as int, self.tabs@[k as int]));
    }

    /// Follows the window's focus: a focused pane of the shown tab that is
    /// not the active one becomes active. The answer is whether it did.
    pub fn track_focused_pane(&mut self, focused: Option<u64>) -> (r: bool)
        requires
            old(self).valid(),
        ensures
            final(self).valid(),
            final(self).active_tab_index == old(self).active_tab_index,
            final(self).tabs@.len() == old(self).tabs@.len(),
            ({
                let k = old(self).active_tab_index as int;
                let t = old(self).tabs@[k];
                r == (old(self).tabs@.len() > 0 && focused is Some && panes_of(t.pane_group.root).contains(
                    focused->0,
                ) && t.active_pane != focused)
            }),
            !r ==> final(self).tabs@ == old(self).tabs@,
            r ==> {
                let k = old(self).active_tab_index as int;
                let t = old(self).tabs@[k];
                &&& forall|j: int| 0 <= j < old(self).tabs@.len() && j != k ==> #[trigger] final(self).tabs@[j]
                    == old(self).tabs@[j]
                &&& final(self).tabs@[k].pane_group == t.pane_group
                &&& final(self).tabs@[k].zoomed_pane_group == t.zoomed_pane_group
                &&& final(self).tabs@[k].active_pane == focused
            },
    {
        if self.tabs.len() == 0 {
            return false;
        }
        let f = match focused {
            Some(f) => f,
            None => return false,
        };
        let k = self.active_tab_index;
        if self.tabs[k].active_pane == Some(f) {
            return false;
        }
        if !self.tabs[k].pane_group.contains(f) {
            return false;
        }
        let ghost before = self.tabs@;
        let mut tab = self.tabs.remove(k);
        proof {
            assert(tab == before[k as int]);
        }
        tab = TerminalTab { pane_group: tab.pane_group, active_pane: Some(f), zoomed_pane_group: tab.zoomed_pane_group };
        self.tabs.insert(k, tab);
        assert(self.tabs@ =~= before.update(k as int, self.tabs@[k as int]));
        true
    }
}

/// Zooming a tab and zooming it again gives the tab back as it was.
pub proof fn law_zoom_twice_restores(t: TerminalTab)
    requires
        t.zoomed_pane_group is None,
    ensures
        toggled(toggled(t)) == t,
{
}

} // verus!
