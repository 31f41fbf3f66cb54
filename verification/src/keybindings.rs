//! The default key bindings and how a key combination is shown.
use vstd::prelude::*;
use crate::branch::opt_view;
use crate::status::{char_views, split_chars, split_on};
use crate::text::{char_to_uppercase, str_chars, string_from_chars, uppercase_of};
use crate::terminal_input::str_is;

verus! {

/// A key binding: the keys, the action they trigger and the context in
/// which they apply (everywhere when none).
#[derive(Debug)]
pub struct KeybindingEntry {
    pub key: String,
    pub action: String,
    pub context: Option<String>,
}

/// A binding that applies everywhere.
pub fn entry(key: &str, action: &str) -> (r: KeybindingEntry)
    ensures
        r.key@ == key@,
        r.action@ == action@,
        r.context is None,
{
    KeybindingEntry { key: key.to_owned(), action: action.to_owned(), context: None }
}

/// A binding that applies in the terminal.
pub fn terminal_entry(key: &str, action: &str) -> (r: KeybindingEntry)
    ensures
        r.key@ == key@,
        r.action@ == action@,
        opt_view(r.context) == Some("Terminal"@),
{
    KeybindingEntry {
        key: key.to_owned(),
        action: action.to_owned(),
        context: Some("Terminal".to_owned()),
    }
}

/// The default bindings: keys, action, and whether the binding is for the
/// terminal.
pub open spec fn default_bindings_table() -> Seq<(Seq<char>, Seq<char>, bool)> {
    seq![
        ("cmd-q"@, "Quit"@, false),
        ("cmd-h"@, "HideApp"@, false),
        ("cmd-alt-h"@, "HideOtherApps"@, false),
        ("cmd-m"@, "MinimizeWindow"@, false),
        ("cmd-w"@, "CloseSideTab"@, false),
        ("escape"@, "CloseDiffView"@, false),
        ("cmd-t"@, "NewSideTab"@, false),
        ("cmd-b"@, "ToggleLeftSidebar"@, false),
        ("cmd-r"@, "ToggleRightSidebar"@, false),
        ("cmd-,"@, "OpenSettings"@, false),
        ("cmd-n"@, "NewSession"@, false),
        ("cmd-j"@, "ToggleBottomPanel"@, false),
        ("cmd-`"@, "FocusTerminal"@, false),
        ("cmd-/"@, "ToggleHelp"@, false),
        ("cmd-enter"@, "RunGitAction"@, false),
        ("cmd-shift-u"@, "UpdateFromMain"@, false),
        ("cmd-1"@, "SelectSession1"@, false),
        ("cmd-2"@, "SelectSession2"@, false),
        ("cmd-3"@, "SelectSession3"@, false),
        ("cmd-4"@, "SelectSession4"@, false),
        ("cmd-5"@, "SelectSession5"@, false),
        ("cmd-6"@, "SelectSession6"@, false),
        ("cmd-7"@, "SelectSession7"@, false),
        ("cmd-8"@, "SelectSession8"@, false),
        ("cmd-9"@, "SelectSession9"@, false),
        ("cmd-d"@, "SplitTerminalRight"@, true),
        ("cmd-shift-d"@, "SplitTerminalDown"@, true),
        ("cmd-shift-]"@, "NextTerminalTab"@, true),
        ("cmd-shift-["@, "PrevTerminalTab"@, true),
        ("cmd-shift-enter"@, "ToggleZoomTerminalPane"@, true),
        ("cmd-alt-left"@, "ActivatePaneLeft"@, true),
        ("cmd-alt-right"@, "ActivatePaneRight"@, true),
        ("cmd-alt-up"@, "ActivatePaneUp"@, true),
        ("cmd-alt-down"@, "ActivatePaneDown"@, true),
        ("cmd-ctrl-left"@, "SplitTerminalLeft"@, true),
        ("cmd-ctrl-right"@, "SplitTerminalRight"@, true),
        ("cmd-ctrl-up"@, "SplitTerminalUp"@, true),
        ("cmd-ctrl-down"@, "SplitTerminalDown"@, true)
    ]
}

pub open spec fn binding_matches(e: KeybindingEntry, row: (Seq<char>, Seq<char>, bool)) -> bool {
    &&& e.key@ == row.0
    &&& e.action@ == row.1
    &&& if row.2 {
        opt_view(e.context) == Some("Terminal"@)
    } else {
        e.context is None
    }
}

/// The default key bindings.
pub fn default_keybindings() -> (r: Vec<KeybindingEntry>)
    ensures
        r@.len() == default_bindings_table().len(),
        forall|i: int| 0 <= i < r@.len() ==> binding_matches(#[trigger] r@[i], default_bindings_table()[i]),
{
    let mut v: Vec<KeybindingEntry> = Vec::new();
    v.push(entry("cmd-q", "Quit"));
    v.push(entry("cmd-h", "HideApp"));
    v.push(entry("cmd-alt-h", "HideOtherApps"));
    v.push(entry("cmd-m", "MinimizeWindow"));
    v.push(entry("cmd-w", "CloseSideTab"));
    v.push(entry("escape", "CloseDiffView"));
    v.push(entry("cmd-t", "NewSideTab"));
    v.push(entry("cmd-b", "ToggleLeftSidebar"));
    v.push(entry("cmd-r", "ToggleRightSidebar"));
    v.push(entry("cmd-,", "OpenSettings"));
    v.push(entry("cmd-n", "NewSession"));
    v.push(entry("cmd-j", "ToggleBottomPanel"));
    v.push(entry("cmd-`", "FocusTerminal"));
    v.push(entry("cmd-/", "ToggleHelp"));
    v.push(entry("cmd-enter", "RunGitAction"));
    v.push(entry("cmd-shift-u", "UpdateFromMain"));
    v.push(entry("cmd-1", "SelectSession1"));
    v.push(entry("cmd-2", "SelectSession2"));
    v.push(entry("cmd-3", "SelectSession3"));
    v.push(entry("cmd-4", "SelectSession4"));
    v.push(entry("cmd-5", "SelectSession5"));
    v.push(entry("cmd-6", "SelectSession6"));
    v.push(entry("cmd-7", "SelectSession7"));
    v.push(entry("cmd-8", "SelectSession8"));
    v.push(entry("cmd-9", "SelectSession9"));
    v.push(terminal_entry("cmd-d", "SplitTerminalRight"));
    v.push(terminal_entry("cmd-shift-d", "SplitTerminalDown"));
    v.push(terminal_entry("cmd-shift-]", "NextTerminalTab"));
    v.push(terminal_entry("cmd-shift-[", "PrevTerminalTab"));
    v.push(terminal_entry("cmd-shift-enter", "ToggleZoomTerminalPane"));
    v.push(terminal_entry("cmd-alt-left", "ActivatePaneLeft"));
    v.push(terminal_entry("cmd-alt-right", "ActivatePaneRight"));
    v.push(terminal_entry("cmd-alt-up", "ActivatePaneUp"));
    v.push(terminal_entry("cmd-alt-down", "ActivatePaneDown"));
    v.push(terminal_entry("cmd-ctrl-left", "SplitTerminalLeft"));
    v.push(terminal_entry("cmd-ctrl-right", "SplitTerminalRight"));
    v.push(terminal_entry("cmd-ctrl-up", "SplitTerminalUp"));
    v.push(terminal_entry("cmd-ctrl-down", "SplitTerminalDown"));
    proof {
        assert forall|i: int| 0 <= i < v@.len() implies binding_matches(#[trigger] v@[i], default_bindings_table()[i]) by {
        }
    }
    v
}

/// A key name as shown: its first character in upper case.
pub open spec fn display_part(p: Seq<char>) -> Seq<char> {
    if p.len() == 0 {
        Seq::empty()
    } else {
        uppercase_of(p[0]) + p.drop_first()
    }
}

/// The shown key names joined by ` + `.
pub open spec fn join_display(parts: Seq<Seq<char>>) -> Seq<char>
    decreases parts.len(),
{
    if parts.len() == 0 {
        Seq::empty()
    } else if parts.len() == 1 {
        display_part(parts[0])
    } else {
        join_display(parts.drop_last()) + seq![' ', '+', ' '] + display_part(parts.last())
    }
}

/// Shows a key combination such as `cmd-shift-b` as `Cmd + Shift + B`.
pub fn format_key_display(key: &str) -> (r: String)
    ensures
        r@ == join_display(split_on(key@, '-')),
{
    let chars = str_chars(key);
    let parts = split_chars(chars.as_slice(), '-');
    let ghost ps = char_views(parts@);
    let mut out: Vec<char> = Vec::new();
    let mut i: usize = 0;
    assert(ps.subrange(0, 0) =~= Seq::<Seq<char>>::empty());
    while i < parts.len()
        invariant
            ps == char_views(parts@),
            i <= ps.len(),
            out@ == join_display(ps.subrange(0, i as int)),
        decreases ps.len() - i,
    {
        let part = &parts[i];
        proof {
            assert(ps.subrange(0, i + 1).drop_last() =~= ps.subrange(0, i as int));
            assert(ps.subrange(0, i + 1).last() == part@);
        }
        if i > 0 {
            out.push(' ');
            out.push('+');
            out.push(' ');
        }
        let ghost o0 = out@;
        if part.len() > 0 {
            let upper = char_to_uppercase(part[0]);
            let mut k: usize = 0;
            while k < upper.len()
                invariant
                    k <= upper@.len(),
                    out@ == o0 + upper@.subrange(0, k as int),
                decreases upper@.len() - k,
            {
                out.push(upper[k]);
                k = k + 1;
            }
            let ghost o1 = out@;
            let mut m: usize = 1;
            while m < part.len()
                invariant
                    1 <= m <= part@.len(),
                    out@ == o1 + part@.subrange(1, m as int),
                decreases part@.len() - m,
            {
                out.push(part[m]);
                m = m + 1;
            }
            proof {
                assert(upper@.subrange(0, upper@.len() as int) =~= upper@);
                assert(part@.subrange(1, part@.len() as int) =~= part@.drop_first());
            }
        }
        proof {
            if i == 0 {
                assert(out@ =~= join_display(ps.subrange(0, i + 1)));
            } else {
                assert(out@ =~= join_display(ps.subrange(0, i + 1)));
            }
        }
        i = i + 1;
    }
    assert(ps.subrange(0, i as int) =~= ps);
    string_from_chars(out.as_slice())
}

// ---------------------------------------------------------------------------
// actions
// ---------------------------------------------------------------------------

/// An action that a key binding can trigger.
#[derive(Clone, Copy, Debug, PartialEq, Eq, Structural)]
pub enum WorkspaceAction {
    Quit,
    HideApp,
    HideOtherApps,
    MinimizeWindow,
    CloseSideTab,
    CloseDiffView,
    NewSideTab,
    ToggleLeftSidebar,
    ToggleRightSidebar,
    RefreshGitStatus,
    OpenSettings,
    NewSession,
    ToggleBottomPanel,
    FocusTerminal,
    ToggleHelp,
    RunGitAction,
    UpdateFromMain,
    AbortRebase,
    CopyConflictPrompt,
    SelectSession1,
    SelectSession2,
    SelectSession3,
    SelectSession4,
    SelectSession5,
    SelectSession6,
    SelectSession7,
    SelectSession8,
    SelectSession9,
    SplitTerminalRight,
    SplitTerminalLeft,
    SplitTerminalDown,
    SplitTerminalUp,
    ActivatePaneLeft,
    ActivatePaneRight,
    ActivatePaneUp,
    ActivatePaneDown,
    ToggleZoomTerminalPane,
    NextTerminalTab,
    PrevTerminalTab,
}

/// The action a binding names, if it names one.
pub open spec fn action_named(name: Seq<char>) -> Option<WorkspaceAction> {
    if name == "Quit"@ {
        Some(WorkspaceAction::Quit)
    } else if name == "HideApp"@ {
        Some(WorkspaceAction::HideApp)
    } else if name == "HideOtherApps"@ {
        Some(WorkspaceAction::HideOtherApps)
    } else if name == "MinimizeWindow"@ {
        Some(WorkspaceAction::MinimizeWindow)
    } else if name == "CloseSideTab"@ {
        Some(WorkspaceAction::CloseSideTab)
    } else if name == "CloseDiffView"@ {
        Some(WorkspaceAction::CloseDiffView)
    } else if name == "NewSideTab"@ {
        Some(WorkspaceAction::NewSideTab)
    } else if name == "ToggleLeftSidebar"@ {
        Some(WorkspaceAction::ToggleLeftSidebar)
    } else if name == "ToggleRightSidebar"@ {
        Some(WorkspaceAction::ToggleRightSidebar)
    } else if name == "RefreshGitStatus"@ {
        Some(WorkspaceAction::RefreshGitStatus)
    } else if name == "OpenSettings"@ {
        Some(WorkspaceAction::OpenSettings)
    } else if name == "NewSession"@ {
        Some(WorkspaceAction::NewSession)
    } else if name == "ToggleBottomPanel"@ {
        Some(WorkspaceAction::ToggleBottomPanel)
    } else if name == "FocusTerminal"@ {
        Some(WorkspaceAction::FocusTerminal)
    } else if name == "ToggleHelp"@ {
        Some(WorkspaceAction::ToggleHelp)
    } else if name == "RunGitAction"@ {
        Some(WorkspaceAction::RunGitAction)
    } else if name == "UpdateFromMain"@ {
        Some(WorkspaceAction::UpdateFromMain)
    } else if name == "AbortRebase"@ {
        Some(WorkspaceAction::AbortRebase)
    } else if name == "CopyConflictPrompt"@ {
        Some(WorkspaceAction::CopyConflictPrompt)
    } else if name == "SelectSession1"@ {
        Some(WorkspaceAction::SelectSession1)
    } else if name == "SelectSession2"@ {
        Some(WorkspaceAction::SelectSession2)
    } else if name == "SelectSession3"@ {
        Some(WorkspaceAction::SelectSession3)
    } else if name == "SelectSession4"@ {
        Some(WorkspaceAction::SelectSession4)
    } else if name == "SelectSession5"@ {
        Some(WorkspaceAction::SelectSession5)
    } else if name == "SelectSession6"@ {
        Some(WorkspaceAction::SelectSession6)
    } else if name == "SelectSession7"@ {
        Some(WorkspaceAction::SelectSession7)
    } else if name == "SelectSession8"@ {
        Some(WorkspaceAction::SelectSession8)
    } else if name == "SelectSession9"@ {
        Some(WorkspaceAction::SelectSession9)
    } else if name == "SplitTerminalRight"@ {
        Some(WorkspaceAction::SplitTerminalRight)
    } else if name == "SplitTerminalLeft"@ {
        Some(WorkspaceAction::SplitTerminalLeft)
    } else if name == "SplitTerminalDown"@ {
        Some(WorkspaceAction::SplitTerminalDown)
    } else if name == "SplitTerminalUp"@ {
        Some(WorkspaceAction::SplitTerminalUp)
    } else if name == "ActivatePaneLeft"@ {
        Some(WorkspaceAction::ActivatePaneLeft)
    } else if name == "ActivatePaneRight"@ {
        Some(WorkspaceAction::ActivatePaneRight)
    } else if name == "ActivatePaneUp"@ {
        Some(WorkspaceAction::ActivatePaneUp)
    } else if name == "ActivatePaneDown"@ {
        Some(WorkspaceAction::ActivatePaneDown)
    } else if name == "ToggleZoomTerminalPane"@ {
        Some(WorkspaceAction::ToggleZoomTerminalPane)
    } else if name == "NextTerminalTab"@ {
        Some(WorkspaceAction::NextTerminalTab)
    } else if name == "PrevTerminalTab"@ {
        Some(WorkspaceAction::PrevTerminalTab)
    } else {
        None
    }
}

/// The action a binding names, if it names one.
pub fn action_for_name(name: &str) -> (r: Option<WorkspaceAction>)
    ensures
        r == action_named(name@),
{
    if str_is(name, "Quit") {
        return Some(WorkspaceAction::Quit);
    }
    if str_is(name, "HideApp") {
        return Some(WorkspaceAction::HideApp);
    }
    if str_is(name, "HideOtherApps") {
        return Some(WorkspaceAction::HideOtherApps);
    }
    if str_is(name, "MinimizeWindow") {
        return Some(WorkspaceAction::MinimizeWindow);
    }
    if str_is(name, "CloseSideTab") {
        return Some(WorkspaceAction::CloseSideTab);
    }
    if str_is(name, "CloseDiffView") {
        return Some(WorkspaceAction::CloseDiffView);
    }
    if str_is(name, "NewSideTab") {
        return Some(WorkspaceAction::NewSideTab);
    }
    if str_is(name, "ToggleLeftSidebar") {
        return Some(WorkspaceAction::ToggleLeftSidebar);
    }
    if str_is(name, "ToggleRightSidebar") {
        return Some(WorkspaceAction::ToggleRightSidebar);
    }
    if str_is(name, "RefreshGitStatus") {
        return Some(WorkspaceAction::RefreshGitStatus);
    }
    if str_is(name, "OpenSettings") {
        return Some(WorkspaceAction::OpenSettings);
    }
    if str_is(name, "NewSession") {
        return Some(WorkspaceAction::NewSession);
    }
    if str_is(name, "ToggleBottomPanel") {
        return Some(WorkspaceAction::ToggleBottomPanel);
    }
    if str_is(name, "FocusTerminal") {
        return Some(WorkspaceAction::FocusTerminal);
    }
    if str_is(name, "ToggleHelp") {
        return Some(WorkspaceAction::ToggleHelp);
    }
    if str_is(name, "RunGitAction") {
        return Some(WorkspaceAction::RunGitAction);
    }
    if str_is(name, "UpdateFromMain") {
        return Some(WorkspaceAction::UpdateFromMain);
    }
    if str_is(name, "AbortRebase") {
        return Some(WorkspaceAction::AbortRebase);
    }
    if str_is(name, "CopyConflictPrompt") {
        return Some(WorkspaceAction::CopyConflictPrompt);
    }
    if str_is(name, "SelectSession1") {
        return Some(WorkspaceAction::SelectSession1);
    }
    if str_is(name, "SelectSession2") {
        return Some(WorkspaceAction::SelectSession2);
    }
    if str_is(name, "SelectSession3") {
        return Some(WorkspaceAction::SelectSession3);
    }
    if str_is(name, "SelectSession4") {
        return Some(WorkspaceAction::SelectSession4);
    }
    if str_is(name, "SelectSession5") {
        return Some(WorkspaceAction::SelectSession5);
    }
    if str_is(name, "SelectSession6") {
        return Some(WorkspaceAction::SelectSession6);
    }
    if str_is(name, "SelectSession7") {
        return Some(WorkspaceAction::SelectSession7);
    }
    if str_is(name, "SelectSession8") {
        return Some(WorkspaceAction::SelectSession8);
    }
    if str_is(name, "SelectSession9") {
        return Some(WorkspaceAction::SelectSession9);
    }
    if str_is(name, "SplitTerminalRight") {
        return Some(WorkspaceAction::SplitTerminalRight);
    }
    if str_is(name, "SplitTerminalLeft") {
        return Some(WorkspaceAction::SplitTerminalLeft);
    }
    if str_is(name, "SplitTerminalDown") {
        return Some(WorkspaceAction::SplitTerminalDown);
    }
    if str_is(name, "SplitTerminalUp") {
        return Some(WorkspaceAction::SplitTerminalUp);
    }
    if str_is(name, "ActivatePaneLeft") {
        return Some(WorkspaceAction::ActivatePaneLeft);
    }
    if str_is(name, "ActivatePaneRight") {
        return Some(WorkspaceAction::ActivatePaneRight);
    }
    if str_is(name, "ActivatePaneUp") {
        return Some(WorkspaceAction::ActivatePaneUp);
    }
    if str_is(name, "ActivatePaneDown") {
        return Some(WorkspaceAction::ActivatePaneDown);
    }
    if str_is(name, "ToggleZoomTerminalPane") {
        return Some(WorkspaceAction::ToggleZoomTerminalPane);
    }
    if str_is(name, "NextTerminalTab") {
        return Some(WorkspaceAction::NextTerminalTab);
    }
    if str_is(name, "PrevTerminalTab") {
        return Some(WorkspaceAction::PrevTerminalTab);
    }
    None
}

/// The bindings that name a known action, in order: keys, action and
/// context.
pub open spec fn known_bindings(es: Seq<KeybindingEntry>) -> Seq<(Seq<char>, WorkspaceAction, Option<Seq<char>>)>
    decreases es.len(),
{
    if es.len() == 0 {
        Seq::empty()
    } else {
        let rest = known_bindings(es.drop_last());
        let e = es.last();
        match action_named(e.action@) {
            Some(a) => rest.push((e.key@, a, opt_view(e.context))),
            None => rest,
        }
    }
}

/// A binding resolved to its action.
#[derive(Debug)]
pub struct ResolvedBinding {
    pub key: String,
    pub action: WorkspaceAction,
    pub context: Option<String>,
}

/// The bindings that name a known action, resolved; the others are
/// dropped.
pub fn resolve_bindings(entries: &Vec<KeybindingEntry>) -> (r: Vec<ResolvedBinding>)
    ensures
        r@.map_values(|b: ResolvedBinding| (b.key@, b.action, opt_view(b.context))) == known_bindings(entries@),
{
    let mut out: Vec<ResolvedBinding> = Vec::new();
    let mut i: usize = 0;
    while i < entries.len()
        invariant
            i <= entries@.len(),
            out@.map_values(|b: ResolvedBinding| (b.key@, b.action, opt_view(b.context)))
                == known_bindings(entries@.subrange(0, i as int)),
        decreases entries@.len() - i,
    {
        let e = &entries[i];
        proof {
            assert(entries@.subrange(0, i + 1).drop_last() =~= entries@.subrange(0, i as int));
            assert(entries@.subrange(0, i + 1).last() == entries@[i as int]);
        }
        let ghost before = out@;
        match action_for_name(e.action.as_str()) {
            Some(a) => {
                let context = match &e.context {
                    Some(c) => Some(c.clone()),
                    None => None,
                };
                out.push(ResolvedBinding { key: e.key.clone(), action: a, context });
                assert(out@.map_values(|b: ResolvedBinding| (b.key@, b.action, opt_view(b.context)))
                    =~= before.map_values(|b: ResolvedBinding| (b.key@, b.action, opt_view(b.context))).push(
                    (e.key@, a, opt_view(e.context)),
                ));
            },
            None => {},
        }
        i = i + 1;
    }
    assert(entries@.subrange(0, entries@.len() as int) =~= entries@);
    out
}

/// Every default binding names a known action.
pub proof fn law_default_bindings_are_known()
    ensures
        forall|i: int| 0 <= i < default_bindings_table().len() ==> (#[trigger] action_named(
            default_bindings_table()[i].1,
        )) is Some,
{
}

} // verus!
