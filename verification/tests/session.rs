use helix_state::editor::{
    Container, Content, Document, DocumentView, Editor, Layout, Node, Range, SerializableHistory,
    Tree, ViewPosition,
};
use helix_state::file_state::{
    are_file_states_savable, file_state_to_load, is_view_current, restore_file_state,
    save_file_states, set_view_state, FileState, LoadedState,
};
use helix_state::restore::{Reply, Request, Restore, RestoreError};
use helix_state::saving::{SaveReply, SaveRequest, Saving};
use helix_state::session::{
    flatten_views, is_storable, serialize_node, Session, SessionLayout, SessionNode, SessionView,
};
use helix_state::storage::{
    file_name_for_hash, file_state_dir, file_state_path_for, hash_of_path, is_same_path,
    session_dir, session_file_for_cwd,
};
use std::collections::hash_map::DefaultHasher;
use std::collections::BTreeMap;
use std::hash::{Hash, Hasher};
use std::path::Path;

fn leaf(id: u64, doc: u64) -> Node {
    Node { content: Content::View(DocumentView { id, doc }) }
}

fn group(layout: Layout, children: Vec<u64>) -> Node {
    Node { content: Content::Container(Container { layout, children }) }
}

fn document(path: Option<&str>, views: &[u64]) -> Document {
    let mut selections = BTreeMap::new();
    let mut view_offsets = BTreeMap::new();
    for &id in views {
        let n = id as usize;
        selections.insert(id, Range { anchor: n, head: n + 1 });
        view_offsets.insert(
            id,
            ViewPosition { anchor: n + 2, horizontal_offset: n + 3, vertical_offset: n + 4 },
        );
    }
    Document {
        path: path.map(|p| p.to_string()),
        text_len: 100,
        selections,
        view_offsets,
        history: SerializableHistory { json: format!("[{}]", views.len()) },
    }
}

/// The view 10 on the left; on the right 12 above 13. The document of 13 is not open.
fn editor(focus: u64) -> Editor {
    let mut nodes = BTreeMap::new();
    nodes.insert(1, group(Layout::Vertical, vec![10, 2]));
    nodes.insert(2, group(Layout::Horizontal, vec![12, 13]));
    nodes.insert(10, leaf(10, 1));
    nodes.insert(12, leaf(12, 2));
    nodes.insert(13, leaf(13, 9));
    let mut documents = BTreeMap::new();
    documents.insert(1, document(Some("/a.txt"), &[10]));
    documents.insert(2, document(None, &[12]));
    Editor { tree: Tree { root: 1, focus, nodes, views: vec![12, 10] }, documents }
}

fn view(path: Option<&str>, n: usize) -> SessionView {
    SessionView {
        path: path.map(|p| p.to_string()),
        anchor: n,
        head: n,
        scroll_anchor: n,
        scroll_v_offset: n,
        scroll_h_offset: n,
    }
}

fn session(views: Vec<SessionView>, focus_index: usize) -> Session {
    Session {
        version: 1,
        working_directory: "/w".to_string(),
        layout: SessionNode::Container {
            layout: SessionLayout::Vertical,
            children: views.into_iter().map(SessionNode::View).collect(),
        },
        focus_index,
    }
}

fn text(request: &Request) -> String {
    match request {
        Request::Exists { path } => format!("exists {}", path),
        Request::Open { path, action } => format!("open {} {:?}", path, action),
        Request::NewFile { action, missing } => format!("new {:?} {:?}", action, missing),
        Request::RestoreFileState => "restore".to_string(),
        Request::ListViews => "list".to_string(),
        Request::Focus { id } => format!("focus {}", id),
        Request::Done => "done".to_string(),
        Request::Failed => "failed".to_string(),
    }
}

/// Answers all requests; files of which the name says so are missing or cannot be opened.
fn run(mut restore: Restore, ids: &[u64]) -> Vec<String> {
    let mut log = Vec::new();
    loop {
        let request = restore.request();
        log.push(text(&request));
        let reply = match request {
            Request::Exists { path } => Reply::Exists(!path.contains("missing")),
            Request::Open { path, .. } if path.contains("broken") => Reply::OpenFailed,
            Request::ListViews => Reply::Views(ids.to_vec()),
            Request::Done | Request::Failed => return log,
            _ => Reply::Finished,
        };
        restore.advance(reply);
    }
}

#[test]
fn a_session_describes_the_editor() {
    let e = editor(12);
    assert!(is_storable(&e));
    let s = Session::from_editor(&e, "/work".to_string());
    assert_eq!(s.version, 1);
    assert_eq!(s.working_directory, "/work");
    assert_eq!(s.focus_index, 1);
    let (layout, children) = match &s.layout {
        SessionNode::Container { layout, children } => (layout, children),
        SessionNode::View(_) => panic!(),
    };
    assert_eq!(*layout, SessionLayout::Vertical);
    assert_eq!(children.len(), 2);
    match &children[0] {
        SessionNode::View(v) => {
            assert_eq!(v.path.as_deref(), Some("/a.txt"));
            assert_eq!((v.anchor, v.head), (10, 11));
            assert_eq!((v.scroll_anchor, v.scroll_h_offset, v.scroll_v_offset), (12, 13, 14));
        }
        SessionNode::Container { .. } => panic!(),
    }
    match &children[1] {
        SessionNode::Container { layout, children } => {
            assert_eq!(*layout, SessionLayout::Horizontal);
            assert_eq!(children.len(), 2);
        }
        SessionNode::View(_) => panic!(),
    }
}

#[test]
fn a_view_without_open_document_is_stored_empty() {
    let s = Session::from_editor(&editor(10), String::new());
    let mut views = Vec::new();
    flatten_views(&s.layout, &mut views);
    assert_eq!(views.len(), 3);
    assert_eq!(views[1].path, None);
    assert_eq!(views[1].anchor, 12);
    assert_eq!(views[2].path, None);
    assert_eq!((views[2].anchor, views[2].head, views[2].scroll_anchor), (0, 0, 0));
    assert_eq!((views[2].scroll_v_offset, views[2].scroll_h_offset), (0, 0));
}

#[test]
fn the_focus_index_is_the_number_of_the_focused_view() {
    for (focus, index) in [(10, 0), (12, 1), (13, 2), (2, 0), (77, 0)] {
        assert_eq!(Session::from_editor(&editor(focus), String::new()).focus_index, index);
    }
}

#[test]
fn counting_goes_on_from_where_it_was() {
    let e = editor(13);
    let (mut focus_index, mut view_counter) = (5, 7);
    serialize_node(&e, 2, &mut focus_index, &mut view_counter);
    assert_eq!((focus_index, view_counter), (8, 9));
    serialize_node(&e, 10, &mut focus_index, &mut view_counter);
    assert_eq!((focus_index, view_counter), (8, 10));
}

#[test]
fn what_cannot_be_stored() {
    let mut e = editor(10);
    e.tree.nodes.remove(&12);
    assert!(!is_storable(&e));
    let mut e = editor(10);
    e.tree.nodes.insert(2, group(Layout::Horizontal, vec![1]));
    assert!(!is_storable(&e));
    let mut e = editor(10);
    e.documents.insert(1, document(Some("/a.txt"), &[]));
    assert!(!is_storable(&e));
}

#[test]
fn a_cloned_layout_is_the_same() {
    let s = Session::from_editor(&editor(10), String::new());
    let copy = s.layout.clone();
    let (mut a, mut b) = (Vec::new(), Vec::new());
    flatten_views(&s.layout, &mut a);
    flatten_views(&copy, &mut b);
    assert_eq!(a.len(), b.len());
    assert!(a.iter().zip(b.iter()).all(|(x, y)| x.path == y.path && x.anchor == y.anchor));
}

#[test]
fn views_are_flattened_from_left_to_right() {
    let inner = SessionNode::Container {
        layout: SessionLayout::Horizontal,
        children: vec![SessionNode::View(view(None, 2)), SessionNode::View(view(None, 3))],
    };
    let node = SessionNode::Container {
        layout: SessionLayout::Vertical,
        children: vec![SessionNode::View(view(None, 1)), inner, SessionNode::View(view(None, 4))],
    };
    let mut out = vec![view(None, 0)];
    flatten_views(&node, &mut out);
    assert_eq!(out.iter().map(|v| v.head).collect::<Vec<_>>(), vec![0, 1, 2, 3, 4]);
}

#[test]
fn a_session_without_views_is_refused() {
    match session(Vec::new(), 0).restore() {
        Err(e) => {
            assert_eq!(e, RestoreError::NoViews);
            assert_eq!(e.message(), "Session has no views to restore");
        }
        Ok(_) => panic!(),
    }
}

#[test]
fn views_are_opened_in_order_and_by_alternating_splits() {
    let mut views = vec![view(Some("a"), 0), view(None, 1)];
    views.extend([view(Some("missing"), 2), view(Some("d"), 3)]);
    let log = run(session(views, 2).restore().ok().unwrap(), &[7, 8, 9, 10]);
    assert_eq!(
        log,
        vec![
            "exists a",
            "open a VerticalSplit",
            "restore",
            "new VerticalSplit None",
            "restore",
            "exists missing",
            "new HorizontalSplit Some(\"missing\")",
            "restore",
            "exists d",
            "open d VerticalSplit",
            "restore",
            "list",
            "focus 9",
            "done",
        ]
    );
}

#[test]
fn the_focus_is_left_alone_where_there_are_too_few_views() {
    let log = run(session(vec![view(None, 0)], 3).restore().ok().unwrap(), &[7, 8]);
    assert_eq!(log, vec!["new VerticalSplit None", "restore", "list", "done"]);
}

#[test]
fn a_file_that_cannot_be_opened_ends_the_restoring() {
    let views = vec![view(Some("a"), 0), view(Some("broken"), 1), view(Some("c"), 2)];
    let log = run(session(views, 0).restore().ok().unwrap(), &[7]);
    assert_eq!(
        log,
        vec![
            "exists a",
            "open a VerticalSplit",
            "restore",
            "exists broken",
            "open broken VerticalSplit",
            "failed",
        ]
    );
}

#[test]
fn a_single_view_can_be_a_whole_layout() {
    let s = Session {
        version: 1,
        working_directory: String::new(),
        layout: SessionNode::View(view(Some("x"), 0)),
        focus_index: 0,
    };
    let log = run(s.restore().ok().unwrap(), &[4]);
    assert_eq!(log, vec!["exists x", "open x VerticalSplit", "restore", "list", "focus 4", "done"]);
}

#[test]
fn a_stored_editor_is_restored_view_by_view() {
    let s = Session::from_editor(&editor(12), String::new());
    let log = run(s.restore().ok().unwrap(), &[1, 2, 3]);
    let opened: Vec<&String> =
        log.iter().filter(|l| l.starts_with("open") || l.starts_with("new")).collect();
    assert_eq!(
        opened,
        vec!["open /a.txt VerticalSplit", "new VerticalSplit None", "new HorizontalSplit None"]
    );
    assert_eq!(log[log.len() - 2], "focus 2");
}

fn std_hash(path: &str) -> u64 {
    let mut hasher = DefaultHasher::new();
    Path::new(path).hash(&mut hasher);
    hasher.finish()
}

#[test]
fn files_are_stored_under_the_hash_of_their_path() {
    assert_eq!(hash_of_path("/a/b.rs"), std_hash("/a/b.rs"));
    assert_ne!(hash_of_path("/a/b.rs"), hash_of_path("/a/c.rs"));
    let expected = format!("{:x}.json", std_hash("/a/b.rs"));
    let names = file_state_path_for("/a/b.rs").names;
    assert_eq!(names, vec!["file_state".to_string(), expected.clone()]);
    assert_eq!(session_file_for_cwd("/a/b.rs").names, vec!["sessions".to_string(), expected]);
    assert_eq!(session_dir().names, vec!["sessions"]);
    assert_eq!(file_state_dir().names, vec!["file_state"]);
}

#[test]
fn texts_of_the_same_path_share_a_place() {
    assert!(is_same_path("/a/b", "/a//b"));
    assert!(!is_same_path("/a/b", "/a/c"));
    assert_eq!(hash_of_path("/a/b"), hash_of_path("/a//b"));
    assert_eq!(file_state_path_for("/a/b").names, file_state_path_for("/a//b").names);
    assert_eq!(session_file_for_cwd("/a/b").names, session_file_for_cwd("/a//b").names);
}

#[test]
fn hashes_are_written_in_hexadecimal_digits() {
    assert_eq!(file_name_for_hash(0), "0.json");
    assert_eq!(file_name_for_hash(0xdead_beef), "deadbeef.json");
    assert_eq!(file_name_for_hash(16), "10.json");
    assert_eq!(file_name_for_hash(u64::MAX), "ffffffffffffffff.json");
}

#[test]
fn states_are_saved_for_views_on_files() {
    let e = editor(10);
    assert!(are_file_states_savable(&e));
    let saved = save_file_states(&e);
    assert_eq!(saved.len(), 1);
    assert_eq!(saved[0].location.names, file_state_path_for("/a.txt").names);
    let state = &saved[0].state;
    assert_eq!(state.path, "/a.txt");
    assert_eq!((state.anchor, state.head), (10, 11));
    assert_eq!((state.scroll_anchor, state.scroll_h_offset, state.scroll_v_offset), (12, 13, 14));
    assert_eq!(state.history.as_ref().map(|h| h.json.as_str()), Some("[1]"));
}

#[test]
fn states_are_saved_for_documents_that_no_view_shows() {
    let mut e = editor(10);
    e.documents.insert(0, document(Some("/z.txt"), &[]));
    e.documents.insert(5, document(Some("/b.txt"), &[31, 30]));
    e.documents.insert(6, document(None, &[32]));
    e.documents.get_mut(&5).unwrap().view_offsets.remove(&30);
    let saved = save_file_states(&e);
    let paths: Vec<&str> = saved.iter().map(|s| s.state.path.as_str()).collect();
    assert_eq!(paths, vec!["/z.txt", "/b.txt", "/a.txt"]);
    assert_eq!(saved[1].location.names, file_state_path_for("/b.txt").names);
    // No positions are held for a view on the first document.
    let state = &saved[0].state;
    assert_eq!((state.anchor, state.head, state.scroll_anchor), (0, 0, 0));
    assert_eq!(state.history.as_ref().map(|h| h.json.as_str()), Some("[0]"));
    // The second holds both positions for view 31 alone.
    let state = &saved[1].state;
    assert_eq!((state.anchor, state.head), (31, 32));
    assert_eq!((state.scroll_anchor, state.scroll_h_offset, state.scroll_v_offset), (33, 34, 35));
    assert_eq!(state.history.as_ref().map(|h| h.json.as_str()), Some("[2]"));
    assert_eq!(saved[2].state.anchor, 10);
}

#[test]
fn states_are_saved_once_per_view_in_listed_order() {
    let mut e = editor(10);
    e.documents.insert(1, document(Some("/a.txt"), &[10, 12]));
    e.tree.nodes.insert(12, leaf(12, 1));
    let saved = save_file_states(&e);
    assert_eq!(saved.iter().map(|s| s.state.anchor).collect::<Vec<_>>(), vec![12, 10]);
}

#[test]
fn what_cannot_be_saved() {
    let mut e = editor(10);
    e.tree.views.push(13);
    assert!(!are_file_states_savable(&e));
    let mut e = editor(10);
    e.tree.views.push(2);
    assert!(!are_file_states_savable(&e));
    let mut e = editor(10);
    e.documents.insert(1, document(Some("/a.txt"), &[]));
    assert!(!are_file_states_savable(&e));
    let mut e = editor(10);
    e.documents.insert(2, document(None, &[]));
    assert!(are_file_states_savable(&e));
}

/// Answers all requests of a saving; states of files of which the name says so cannot be written.
fn run_saving(directory: bool, mut e: Editor) -> Vec<String> {
    let mut saving = Saving::start();
    let mut log = Vec::new();
    loop {
        let (line, reply) = match saving.request() {
            SaveRequest::CreateDirectory { location } => {
                let reply = if directory { SaveReply::Finished } else { SaveReply::Failed };
                (format!("create {}", location.names.join("/")), reply)
            }
            SaveRequest::ListViews => {
                ("list".to_string(), SaveReply::Views(e.tree.views.clone()))
            }
            SaveRequest::Flush { id } => {
                for doc in e.documents.values_mut() {
                    if doc.selections.contains_key(&id) {
                        doc.history.json.push_str(" flushed");
                    }
                }
                (format!("flush {}", id), SaveReply::Finished)
            }
            SaveRequest::ReadEditor => {
                let empty = Tree { root: 0, focus: 0, nodes: BTreeMap::new(), views: Vec::new() };
                let read = Editor {
                    tree: std::mem::replace(&mut e.tree, empty),
                    documents: std::mem::take(&mut e.documents),
                };
                assert!(are_file_states_savable(&read));
                ("read".to_string(), SaveReply::Editor(read))
            }
            SaveRequest::Write { saved } => {
                assert_eq!(saved.location.names, file_state_path_for(&saved.state.path).names);
                let history = saved.state.history.as_ref().map(|h| h.json.as_str());
                let line =
                    format!("write {} {} {:?}", saved.state.path, saved.state.anchor, history);
                let failed = saved.state.path.contains("broken");
                (line, if failed { SaveReply::Failed } else { SaveReply::Finished })
            }
            SaveRequest::Done => {
                log.push("done".to_string());
                return log;
            }
        };
        log.push(line);
        saving.advance(reply);
    }
}

#[test]
fn pending_changes_are_flushed_before_states_are_written() {
    let mut e = editor(10);
    e.documents.insert(5, document(Some("/b.txt"), &[]));
    assert_eq!(
        run_saving(true, e),
        vec![
            "create file_state",
            "list",
            "flush 12",
            "flush 10",
            "read",
            "write /b.txt 0 Some(\"[0]\")",
            "write /a.txt 10 Some(\"[1] flushed\")",
            "done",
        ]
    );
}

#[test]
fn nothing_is_flushed_or_written_without_the_directory() {
    assert_eq!(run_saving(false, editor(10)), vec!["create file_state", "done"]);
}

#[test]
fn a_state_that_cannot_be_written_is_passed_over() {
    let mut e = editor(10);
    e.documents.insert(5, document(Some("/broken.txt"), &[]));
    let log = run_saving(true, e);
    assert_eq!(log[log.len() - 3], "write /broken.txt 0 Some(\"[0]\")");
    assert_eq!(log[log.len() - 2], "write /a.txt 10 Some(\"[1] flushed\")");
}

#[test]
fn saving_ends_where_there_is_nothing_to_save() {
    let mut e = editor(10);
    e.tree.views.clear();
    e.documents.remove(&1);
    assert_eq!(run_saving(true, e), vec!["create file_state", "list", "read", "done"]);
}

fn state(anchor: usize, head: usize, scroll_anchor: usize) -> FileState {
    FileState {
        path: "/a.txt".to_string(),
        anchor,
        head,
        scroll_anchor,
        scroll_v_offset: 500,
        scroll_h_offset: 600,
        history: None,
    }
}

#[test]
fn a_saved_state_is_looked_for_where_it_was_saved_and_restored() {
    let e = editor(10);
    let mut saved = save_file_states(&e);
    let saved = saved.pop().unwrap();
    assert_eq!(file_state_to_load(&e).unwrap().names, saved.location.names);
    let update = restore_file_state(&e, LoadedState::Loaded(saved.state)).unwrap();
    assert_eq!(update.view_id, 10);
    assert_eq!(update.selection, Range { anchor: 10, head: 11 });
    assert_eq!(
        update.offset,
        ViewPosition { anchor: 12, horizontal_offset: 13, vertical_offset: 14 }
    );
    assert_eq!(update.history.unwrap().json, "[1]");
}

#[test]
fn restored_positions_are_moved_into_the_text() {
    let mut e = editor(10);
    let update = restore_file_state(&e, LoadedState::Loaded(state(99, 100, 4000))).unwrap();
    assert_eq!(update.selection, Range { anchor: 99, head: 99 });
    assert_eq!(
        update.offset,
        ViewPosition { anchor: 99, horizontal_offset: 600, vertical_offset: 500 }
    );
    assert!(update.history.is_none());
    e.documents.get_mut(&1).unwrap().text_len = 0;
    let update = restore_file_state(&e, LoadedState::Loaded(state(3, 0, 1))).unwrap();
    assert_eq!(update.selection, Range { anchor: 0, head: 0 });
    assert_eq!(update.offset.anchor, 0);
}

#[test]
fn nothing_is_restored_without_file_or_state() {
    let e = editor(12);
    assert!(file_state_to_load(&e).is_none());
    assert!(restore_file_state(&e, LoadedState::Loaded(state(1, 1, 1))).is_none());
    let e = editor(10);
    assert!(restore_file_state(&e, LoadedState::Absent).is_none());
    assert!(restore_file_state(&e, LoadedState::Unreadable).is_none());
    assert!(restore_file_state(&e, LoadedState::Invalid).is_none());
}

#[test]
fn a_view_gets_the_state_of_its_file_not_that_of_the_session() {
    let e = editor(10);
    let update =
        set_view_state(&e, &view(Some("/a.txt"), 77), LoadedState::Loaded(state(1, 2, 3))).unwrap();
    assert_eq!(update.selection, Range { anchor: 1, head: 2 });
    assert!(set_view_state(&e, &view(None, 77), LoadedState::Absent).is_none());
}

#[test]
fn the_current_view_is_the_focused_one() {
    assert!(is_view_current(&editor(10)));
    assert!(!is_view_current(&editor(13)));
    assert!(!is_view_current(&editor(1)));
    assert!(!is_view_current(&editor(99)));
}
