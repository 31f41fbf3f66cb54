use dif::pane_group::{Axis, Member, PaneGroup, SplitDirection};

#[test]
fn split_direction_axis_and_order() {
    assert_eq!(SplitDirection::Up.axis(), Axis::Vertical);
    assert_eq!(SplitDirection::Right.axis(), Axis::Horizontal);
    assert!(SplitDirection::Down.increasing());
    assert!(!SplitDirection::Left.increasing());
}

#[test]
fn splitting_inserts_next_to_the_pane() {
    let mut g = PaneGroup::new(1);
    assert!(!g.is_split());
    g.split(1, 2, SplitDirection::Right);
    assert!(g.is_split());
    assert_eq!(g.panes(), vec![1, 2]);
    g.split(1, 3, SplitDirection::Left);
    assert_eq!(g.panes(), vec![3, 1, 2]);
    g.split(2, 4, SplitDirection::Down);
    assert_eq!(g.panes(), vec![3, 1, 2, 4]);
    // a pane that is not there: the new pane goes next to the first one
    g.split(99, 5, SplitDirection::Right);
    assert_eq!(g.panes(), vec![3, 5, 1, 2, 4]);
    assert!(g.contains(4));
    assert!(!g.contains(99));
    assert_eq!(g.first_pane(), 3);
}

#[test]
fn same_axis_split_stays_flat() {
    let mut g = PaneGroup::new(1);
    g.split(1, 2, SplitDirection::Right);
    g.split(2, 3, SplitDirection::Right);
    match &g.root {
        Member::Axis(a) => assert_eq!(a.members.len(), 3),
        Member::Pane(_) => panic!("expected an axis"),
    }
}

#[test]
fn removing_collapses_axes() {
    let mut g = PaneGroup::new(1);
    assert!(!g.remove(1));
    assert!(g.remove(7));
    assert_eq!(g.panes(), vec![1]);
    g.split(1, 2, SplitDirection::Right);
    g.split(2, 3, SplitDirection::Down);
    assert_eq!(g.panes(), vec![1, 2, 3]);
    assert!(g.remove(3));
    assert_eq!(g.panes(), vec![1, 2]);
    assert!(g.remove(1));
    assert_eq!(g.panes(), vec![2]);
    assert!(!g.is_split());
    assert!(!g.remove(2));
}

#[test]
fn removing_a_missing_pane_reports_false() {
    let mut g = PaneGroup::new(1);
    g.split(1, 2, SplitDirection::Right);
    assert!(!g.remove(9));
    assert_eq!(g.panes(), vec![1, 2]);
}

#[test]
fn neighbours_in_each_direction() {
    let mut g = PaneGroup::new(1);
    assert_eq!(g.find_pane_in_direction(1, SplitDirection::Right), None);
    g.split(1, 2, SplitDirection::Right);
    g.split(2, 3, SplitDirection::Down);
    // [1 | [2 / 3]]
    assert_eq!(g.find_pane_in_direction(1, SplitDirection::Right), Some(2));
    assert_eq!(g.find_pane_in_direction(3, SplitDirection::Left), Some(1));
    assert_eq!(g.find_pane_in_direction(2, SplitDirection::Down), Some(3));
    assert_eq!(g.find_pane_in_direction(3, SplitDirection::Up), Some(2));
    assert_eq!(g.find_pane_in_direction(1, SplitDirection::Left), None);
    assert_eq!(g.find_pane_in_direction(2, SplitDirection::Right), None);
    assert_eq!(g.find_pane_in_direction(1, SplitDirection::Down), None);
}

#[test]
fn splits_nest_axes_of_the_other_orientation() {
    let mut g = PaneGroup::new(1);
    g.split(1, 2, SplitDirection::Right);
    g.split(2, 3, SplitDirection::Down);
    g.split(1, 4, SplitDirection::Left);
    match &g.root {
        Member::Axis(a) => {
            assert_eq!(a.axis, Axis::Horizontal);
            assert_eq!(a.members.len(), 3);
            assert!(matches!(a.members[0], Member::Pane(4)));
            assert!(matches!(a.members[1], Member::Pane(1)));
            match &a.members[2] {
                Member::Axis(inner) => {
                    assert_eq!(inner.axis, Axis::Vertical);
                    assert!(matches!(inner.members[0], Member::Pane(2)));
                    assert!(matches!(inner.members[1], Member::Pane(3)));
                }
                other => panic!("expected a vertical axis, got {:?}", other),
            }
        }
        other => panic!("expected an axis, got {:?}", other),
    }
    // Removing 3 collapses the vertical axis back into pane 2.
    assert!(g.remove(3));
    match &g.root {
        Member::Axis(a) => {
            assert_eq!(a.members.len(), 3);
            assert!(matches!(a.members[2], Member::Pane(2)));
        }
        other => panic!("expected an axis, got {:?}", other),
    }
    assert_eq!(g.panes(), vec![4, 1, 2]);
}

#[test]
fn neighbour_inside_a_nested_column_comes_first() {
    let mut g = PaneGroup::new(1);
    g.split(1, 2, SplitDirection::Right);
    g.split(2, 3, SplitDirection::Down);
    g.split(2, 4, SplitDirection::Right);
    // [1 | [[2 | 4] / 3]]
    assert_eq!(g.panes(), vec![1, 2, 4, 3]);
    assert_eq!(g.find_pane_in_direction(2, SplitDirection::Right), Some(4));
    assert_eq!(g.find_pane_in_direction(2, SplitDirection::Left), Some(1));
    assert_eq!(g.find_pane_in_direction(4, SplitDirection::Left), Some(2));
    assert_eq!(g.find_pane_in_direction(4, SplitDirection::Down), Some(3));
    assert_eq!(g.find_pane_in_direction(3, SplitDirection::Up), Some(4));
}
