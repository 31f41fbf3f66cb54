use dif::pane_group::SplitDirection;
use dif::terminal_tabs::{PaneClose, TerminalTabs};

fn active_panes(tabs: &TerminalTabs) -> Vec<u64> {
    tabs.tabs[tabs.active_tab_index].pane_group.panes()
}

fn active_pane(tabs: &TerminalTabs) -> Option<u64> {
    tabs.tabs[tabs.active_tab_index].active_pane
}

#[test]
fn splitting_without_tabs_opens_one() {
    let mut tabs = TerminalTabs::new();
    tabs.split_active(7, SplitDirection::Right);
    assert_eq!(tabs.tabs.len(), 1);
    assert_eq!(tabs.active_tab_index, 0);
    assert_eq!(active_panes(&tabs), vec![7]);
    assert_eq!(active_pane(&tabs), Some(7));
}

#[test]
fn splits_go_next_to_the_active_pane() {
    let mut tabs = TerminalTabs::new();
    tabs.add_tab(1);
    tabs.split_active(2, SplitDirection::Right);
    tabs.split_active(3, SplitDirection::Left);
    assert_eq!(active_panes(&tabs), vec![1, 3, 2]);
    assert_eq!(active_pane(&tabs), Some(3));
}

#[test]
fn cycling_wraps_around_the_panes() {
    let mut tabs = TerminalTabs::new();
    tabs.add_tab(1);
    tabs.split_active(2, SplitDirection::Right);
    tabs.split_active(3, SplitDirection::Right);
    assert_eq!(active_panes(&tabs), vec![1, 2, 3]);
    tabs.cycle_pane(1);
    assert_eq!(active_pane(&tabs), Some(1));
    tabs.cycle_pane(-1);
    assert_eq!(active_pane(&tabs), Some(3));
    tabs.cycle_pane(-4);
    assert_eq!(active_pane(&tabs), Some(2));
}

#[test]
fn closing_panes_then_tabs() {
    let mut tabs = TerminalTabs::new();
    tabs.add_tab(1);
    tabs.split_active(2, SplitDirection::Down);
    tabs.add_tab(5);
    assert_eq!(tabs.active_tab_index, 1);
    assert_eq!(tabs.close_active_pane(), PaneClose::TabClosed);
    assert_eq!(tabs.tabs.len(), 1);
    assert_eq!(tabs.active_tab_index, 0);
    assert_eq!(tabs.close_active_pane(), PaneClose::PaneClosed);
    assert_eq!(active_panes(&tabs), vec![1]);
    assert_eq!(active_pane(&tabs), Some(1));
    assert_eq!(tabs.close_active_pane(), PaneClose::LastTabClosed);
    assert!(tabs.tabs.is_empty());
    assert_eq!(tabs.close_active_pane(), PaneClose::Nothing);
}

#[test]
fn zoom_shows_the_active_pane_and_restores_the_layout() {
    let mut tabs = TerminalTabs::new();
    tabs.add_tab(1);
    tabs.split_active(2, SplitDirection::Right);
    tabs.toggle_zoom();
    assert_eq!(active_panes(&tabs), vec![2]);
    assert!(tabs.tabs[0].zoomed_pane_group.is_some());
    tabs.toggle_zoom();
    assert_eq!(active_panes(&tabs), vec![1, 2]);
    assert!(tabs.tabs[0].zoomed_pane_group.is_none());
    // Splitting a zoomed tab leaves zoom first.
    tabs.toggle_zoom();
    tabs.split_active(3, SplitDirection::Right);
    assert_eq!(active_panes(&tabs), vec![1, 2, 3]);
    assert!(tabs.tabs[0].zoomed_pane_group.is_none());
}

#[test]
fn focus_moves_by_direction_and_follows_the_window() {
    let mut tabs = TerminalTabs::new();
    tabs.add_tab(1);
    tabs.split_active(2, SplitDirection::Right);
    tabs.activate_pane_in_direction(SplitDirection::Left);
    assert_eq!(active_pane(&tabs), Some(1));
    tabs.activate_pane_in_direction(SplitDirection::Left);
    assert_eq!(active_pane(&tabs), Some(1));
    assert!(tabs.track_focused_pane(Some(2)));
    assert_eq!(active_pane(&tabs), Some(2));
    assert!(!tabs.track_focused_pane(Some(2)));
    assert!(!tabs.track_focused_pane(Some(99)));
    assert!(!tabs.track_focused_pane(None));
}

#[test]
fn closing_other_and_all_tabs() {
    let mut tabs = TerminalTabs::new();
    tabs.add_tab(1);
    tabs.add_tab(2);
    tabs.add_tab(3);
    tabs.active_tab_index = 1;
    tabs.close_other_tabs();
    assert_eq!(tabs.tabs.len(), 1);
    assert_eq!(active_panes(&tabs), vec![2]);
    tabs.close_all_tabs();
    assert!(tabs.tabs.is_empty());
    assert_eq!(tabs.active_tab_index, 0);
}
