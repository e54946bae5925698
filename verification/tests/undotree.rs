use helix_state::text::format_duration;
use helix_state::tree_lines::{build_tree_lines, dfs_collect, is_sound_history, RevisionInfo};
use helix_state::undotree::{
    Callback, Event, EventResult, KeyCode, KeyEvent, LineStyle, Rect, UndoTreeView,
};

const SEC: u64 = 1_000_000_000;

fn rev(timestamp: u64, is_current: bool, children: Vec<usize>) -> RevisionInfo {
    RevisionInfo { timestamp, is_current, children }
}

/// 0 has the branches 1 and 2; 1 goes on to 3; 2 has the branches 4 and 5.
fn branching() -> Vec<RevisionInfo> {
    vec![
        rev(0, false, vec![1, 2]),
        rev(10 * SEC, false, vec![3]),
        rev(20 * SEC, false, vec![4, 5]),
        rev(30 * SEC, false, vec![]),
        rev(40 * SEC, false, vec![]),
        rev(50 * SEC, true, vec![]),
    ]
}

fn key(code: KeyCode) -> Event {
    Event::Key(KeyEvent { code })
}

fn area(height: u16) -> Rect {
    Rect { x: 3, y: 4, width: 40, height }
}

fn enter(view: &mut UndoTreeView) -> usize {
    match view.handle_event(&key(KeyCode::Enter)) {
        EventResult::Consumed(Some(Callback::JumpToRevision { revision })) => revision,
        other => panic!("{:?}", other),
    }
}

#[test]
fn durations_are_shown_in_their_largest_unit() {
    assert_eq!(format_duration(0), "0s ago");
    assert_eq!(format_duration(59), "59s ago");
    assert_eq!(format_duration(60), "1m ago");
    assert_eq!(format_duration(3599), "59m ago");
    assert_eq!(format_duration(3600), "1h ago");
    assert_eq!(format_duration(86399), "23h ago");
    assert_eq!(format_duration(86400), "1d ago");
    assert_eq!(format_duration(1_000_000), "11d ago");
    assert_eq!(format_duration(u64::MAX), "213503982334601d ago");
}

#[test]
fn collection_puts_older_branches_before_newer_ones() {
    let revisions = branching();
    let mut out = vec![(9, 9)];
    dfs_collect(&revisions, 0, 2, &mut out);
    assert_eq!(out, vec![(9, 9), (0, 2), (1, 3), (3, 3), (2, 2), (4, 3), (5, 2)]);
    let mut three: Vec<RevisionInfo> = (0..4).map(|_| rev(0, false, vec![])).collect();
    three[0].children = vec![1, 2, 3];
    let mut out = Vec::new();
    dfs_collect(&three, 0, 0, &mut out);
    assert_eq!(out, vec![(0, 0), (2, 1), (1, 1), (3, 0)]);
}

#[test]
fn lines_run_from_the_main_path_down_to_the_root() {
    let lines = build_tree_lines(&branching(), 100 * SEC + 5);
    let order: Vec<usize> = lines.iter().map(|l| l.revision_index).collect();
    assert_eq!(order, vec![5, 4, 2, 3, 1, 0]);
    let texts: Vec<&str> = lines.iter().map(|l| l.text.as_str()).collect();
    assert_eq!(
        texts,
        vec![
            "* [5] 50s ago",
            "  o [4] 1m ago",
            "o [2] 1m ago [2 branches]",
            "  o [3] 1m ago",
            "  o [1] 1m ago",
            "o [0] 1m ago [2 branches]",
        ]
    );
}

fn listed(revisions: &[RevisionInfo]) -> Vec<(usize, usize)> {
    build_tree_lines(revisions, 0)
        .iter()
        .map(|l| (l.revision_index, (l.text.len() - l.text.trim_start().len()) / 2))
        .collect()
}

#[test]
fn the_newest_revision_is_at_the_top() {
    // Revision 3 was made from 1 after 2 had been made from the root.
    let revisions = vec![
        rev(1, false, vec![1, 2]),
        rev(2, false, vec![3]),
        rev(3, false, vec![]),
        rev(4, true, vec![]),
    ];
    assert_eq!(listed(&revisions), vec![(3, 1), (1, 1), (2, 0), (0, 0)]);
    let mut out = Vec::new();
    dfs_collect(&revisions, 0, 0, &mut out);
    assert_eq!(out, vec![(0, 0), (2, 0), (1, 1), (3, 1)]);
}

#[test]
fn branches_are_ordered_by_their_newest_revision() {
    let times = [0, 30, 10, 20, 10, 20];
    let mut revisions: Vec<RevisionInfo> = times.iter().map(|&t| rev(t, false, vec![])).collect();
    revisions[0].children = vec![1, 2, 3, 4, 5];
    // Of equally new branches the main path comes first, else the one that was started first.
    assert_eq!(listed(&revisions), vec![(1, 1), (5, 0), (3, 1), (2, 1), (4, 1), (0, 0)]);
    revisions[5].timestamp = 10;
    assert_eq!(listed(&revisions), vec![(1, 1), (3, 1), (5, 0), (2, 1), (4, 1), (0, 0)]);
}

#[test]
fn every_revision_is_listed_once_with_the_root_last() {
    let lines = build_tree_lines(&branching(), 0);
    let mut order: Vec<usize> = lines.iter().map(|l| l.revision_index).collect();
    assert_eq!(order[order.len() - 1], 0);
    assert_eq!(order[0], 5);
    order.sort();
    assert_eq!(order, vec![0, 1, 2, 3, 4, 5]);
}

#[test]
fn unreachable_revisions_are_not_listed() {
    let revisions = vec![rev(0, true, vec![2]), rev(0, false, vec![]), rev(0, false, vec![])];
    let lines = build_tree_lines(&revisions, 0);
    let order: Vec<usize> = lines.iter().map(|l| l.revision_index).collect();
    assert_eq!(order, vec![2, 0]);
}

#[test]
fn no_revisions_give_no_lines() {
    assert!(build_tree_lines(&[], 7).is_empty());
    let mut view = UndoTreeView::new(Vec::new(), 0, 7);
    assert!(view.is_empty());
    assert!(view.render(area(5)).is_empty());
    for code in [KeyCode::Down, KeyCode::Up, KeyCode::Char('g'), KeyCode::Char('G')] {
        assert_eq!(view.handle_event(&key(code)), EventResult::Consumed(None));
    }
}

#[test]
fn a_time_to_come_is_shown_as_now() {
    let lines = build_tree_lines(&[rev(9 * SEC, false, vec![])], 2 * SEC);
    assert_eq!(lines[0].text, "o [0] 0s ago");
    let lines = build_tree_lines(&[rev(SEC, false, vec![])], 2 * SEC - 1);
    assert_eq!(lines[0].text, "o [0] 0s ago");
}

#[test]
fn soundness_of_histories() {
    assert!(is_sound_history(&[]));
    assert!(is_sound_history(&branching()));
    assert!(!is_sound_history(&[rev(0, true, vec![1])]));
    assert!(!is_sound_history(&[rev(0, true, vec![0])]));
    let cycle = [rev(0, true, vec![1]), rev(0, true, vec![2]), rev(0, true, vec![1])];
    assert!(!is_sound_history(&cycle));
    let apart = [rev(0, true, vec![]), rev(0, true, vec![1])];
    assert!(is_sound_history(&apart));
}

#[test]
fn opens_on_the_current_revision() {
    for current in 0..6 {
        let mut view = UndoTreeView::new(branching(), current, 0);
        assert_eq!(enter(&mut view), current);
    }
    let mut view = UndoTreeView::new(branching(), 17, 0);
    assert_eq!(enter(&mut view), 5);
}

#[test]
fn keys_move_the_selection() {
    let mut view = UndoTreeView::new(branching(), 5, 0);
    assert_eq!(view.handle_event(&key(KeyCode::Char('j'))), EventResult::Consumed(None));
    assert_eq!(enter(&mut view), 4);
    view.handle_event(&key(KeyCode::Down));
    assert_eq!(enter(&mut view), 2);
    view.handle_event(&key(KeyCode::Char('k')));
    assert_eq!(enter(&mut view), 4);
    view.handle_event(&key(KeyCode::Up));
    assert_eq!(enter(&mut view), 5);
    view.handle_event(&key(KeyCode::Up));
    assert_eq!(enter(&mut view), 5);
    view.handle_event(&key(KeyCode::Char('G')));
    assert_eq!(enter(&mut view), 0);
    view.handle_event(&key(KeyCode::Down));
    assert_eq!(enter(&mut view), 0);
    view.handle_event(&key(KeyCode::Char('g')));
    assert_eq!(enter(&mut view), 5);
}

#[test]
fn up_and_down_undo_each_other() {
    let mut view = UndoTreeView::new(branching(), 2, 0);
    view.handle_event(&key(KeyCode::Down));
    view.handle_event(&key(KeyCode::Up));
    assert_eq!(enter(&mut view), 2);
    view.handle_event(&key(KeyCode::Up));
    view.handle_event(&key(KeyCode::Down));
    assert_eq!(enter(&mut view), 2);
}

#[test]
fn other_events() {
    let mut view = UndoTreeView::new(branching(), 2, 0);
    let close = EventResult::Consumed(Some(Callback::Close));
    assert_eq!(view.handle_event(&key(KeyCode::Esc)), close);
    assert_eq!(view.handle_event(&key(KeyCode::Char('q'))), close);
    assert_eq!(view.handle_event(&key(KeyCode::Char('J'))), EventResult::Ignored(None));
    assert_eq!(view.handle_event(&key(KeyCode::Other)), EventResult::Ignored(None));
    assert_eq!(view.handle_event(&Event::Other), EventResult::Ignored(None));
    assert_eq!(enter(&mut view), 2);
}

#[test]
fn draws_what_fits() {
    let mut view = UndoTreeView::new(branching(), 5, 0);
    let rows = view.render(area(3));
    assert_eq!(rows.len(), 3);
    assert_eq!((rows[0].x, rows[0].y, rows[0].width), (3, 4, 40));
    assert_eq!(rows[2].y, 6);
    assert_eq!(rows[0].style, LineStyle::Cursor);
    assert_eq!(rows[1].style, LineStyle::Text);
    assert_eq!(view.render(area(50)).len(), 6);
    assert!(view.render(area(0)).is_empty());
    let narrow = view.render(Rect { x: 0, y: 0, width: 4, height: 2 });
    assert_eq!(narrow[0].text, "* [5");
    assert_eq!(narrow[1].text, "  o ");
}

#[test]
fn only_what_is_drawn_has_to_fit() {
    let view = UndoTreeView::new(branching(), 5, 0);
    let at = |y: u16, height: u16| view.fits(Rect { x: 0, y, width: 9, height });
    assert!(at(0, u16::MAX));
    assert!(at(u16::MAX - 5, u16::MAX));
    assert!(!at(u16::MAX - 4, u16::MAX));
    assert!(at(u16::MAX - 4, 5));
    assert!(at(u16::MAX, 0));
    assert!(UndoTreeView::new(Vec::new(), 0, 0).fits(area(u16::MAX)));
}

#[test]
fn scrolls_to_the_selection() {
    let mut view = UndoTreeView::new(branching(), 5, 0);
    view.handle_event(&key(KeyCode::Char('G')));
    let rows = view.render(area(2));
    assert_eq!(rows[0].text, "  o [1] 0s ago");
    assert_eq!(rows[1].text, "o [0] 0s ago [2 branches]");
    assert_eq!(rows[1].style, LineStyle::Selection);
    // Going up within the drawn lines does not scroll.
    view.handle_event(&key(KeyCode::Up));
    let rows = view.render(area(2));
    assert_eq!(rows[0].text, "  o [1] 0s ago");
    assert_eq!(rows[0].style, LineStyle::Selection);
    view.handle_event(&key(KeyCode::Char('g')));
    let rows = view.render(area(2));
    assert_eq!(rows[0].text, "* [5] 0s ago");
    assert_eq!(rows[0].style, LineStyle::Cursor);
}

#[test]
fn drawing_again_draws_the_same() {
    let mut view = UndoTreeView::new(branching(), 1, 0);
    let first: Vec<String> = view.render(area(2)).into_iter().map(|r| r.text).collect();
    let again: Vec<String> = view.render(area(2)).into_iter().map(|r| r.text).collect();
    assert_eq!(first, again);
    assert_eq!(first, vec!["  o [3] 0s ago", "  o [1] 0s ago"]);
}

#[test]
fn styles_have_theme_keys() {
    assert_eq!(LineStyle::Cursor.theme_key(), "ui.cursor.primary");
    assert_eq!(LineStyle::Selection.theme_key(), "ui.selection");
    assert_eq!(LineStyle::Text.theme_key(), "ui.text");
}

#[test]
fn takes_the_viewport_and_has_a_name() {
    let view = UndoTreeView::new(branching(), 0, 0);
    assert_eq!(view.required_size((80, 24)), Some((80, 24)));
    assert_eq!(view.id(), Some("undotree"));
}
