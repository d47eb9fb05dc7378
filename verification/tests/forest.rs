use stax::commands::create_child_branch;
use stax::commands::prune;
use stax::commands::rebase;
use stax::commands::track_branch;
use stax::commands::untrack_branch;
use stax::model::Branch;
use stax::model::Error;
use stax::model::State;
use stax::state::serialize_state;
use stax::util::get_target_branch;

fn names(state: &State) -> Vec<String> {
    state.branches.iter().map(|b| b.name.clone()).collect()
}

#[test]
fn track_root_and_child() {
    let mut st = State::new();
    assert_eq!(track_branch(&mut st, "main", None), Ok(true));
    assert_eq!(track_branch(&mut st, "feat", Some("main")), Ok(true));
    assert_eq!(names(&st), vec!["main".to_string(), "feat".to_string()]);
    assert_eq!(st.branches[0].children, vec!["feat".to_string()]);
    assert_eq!(st.branches[1].parent, Some("main".to_string()));
    assert!(st.branches[1].children.is_empty());
}

#[test]
fn track_already_tracked_is_noop() {
    let mut st = State::new();
    assert_eq!(track_branch(&mut st, "main", None), Ok(true));
    assert_eq!(track_branch(&mut st, "feat", Some("main")), Ok(true));
    let before = serialize_state(&st);
    assert_eq!(track_branch(&mut st, "feat", None), Ok(false));
    assert_eq!(track_branch(&mut st, "feat", Some("main")), Ok(false));
    let after = serialize_state(&st);
    assert_eq!(before, after);
}

#[test]
fn track_unknown_parent_is_refused() {
    let mut st = State::new();
    assert_eq!(track_branch(&mut st, "feat", Some("ghost")), Err(Error::UnknownParent));
    assert!(st.branches.is_empty());
}

#[test]
fn untrack_with_children_fails() {
    let mut st = State::new();
    track_branch(&mut st, "main", None).unwrap();
    track_branch(&mut st, "feat", Some("main")).unwrap();
    let before = serialize_state(&st);
    assert_eq!(untrack_branch(&mut st, "main"), Err(Error::HasChildren));
    let after = serialize_state(&st);
    assert_eq!(before, after);
}

#[test]
fn untrack_leaf_strips_references() {
    let mut st = State::new();
    track_branch(&mut st, "main", None).unwrap();
    track_branch(&mut st, "feat", Some("main")).unwrap();
    assert_eq!(untrack_branch(&mut st, "feat"), Ok(()));
    assert_eq!(names(&st), vec!["main".to_string()]);
    assert!(st.branches[0].children.is_empty());
}

#[test]
fn untrack_absent_fails() {
    let mut st = State::new();
    assert_eq!(untrack_branch(&mut st, "ghost"), Err(Error::NotTracked));
}

#[test]
fn stack_child_records_both_sides() {
    let mut st = State::new();
    track_branch(&mut st, "main", None).unwrap();
    assert_eq!(create_child_branch(&mut st, "feat", "main"), Ok(()));
    assert_eq!(st.branches[0].children, vec!["feat".to_string()]);
    assert_eq!(st.branches[1].parent, Some("main".to_string()));
    assert_eq!(create_child_branch(&mut st, "feat", "main"), Err(Error::AlreadyTracked));
    assert_eq!(create_child_branch(&mut st, "other", "ghost"), Err(Error::UnknownParent));
}

#[test]
fn rebase_moves_the_edge() {
    let mut st = State::new();
    track_branch(&mut st, "main", None).unwrap();
    track_branch(&mut st, "a", Some("main")).unwrap();
    track_branch(&mut st, "b", Some("main")).unwrap();
    assert_eq!(rebase(&mut st, "a", "b"), Ok(()));
    let main = &st.branches[0];
    assert_eq!(main.children, vec!["b".to_string()]);
    let a = st.branches.iter().find(|b| b.name == "a").unwrap();
    assert_eq!(a.parent, Some("b".to_string()));
    let b = st.branches.iter().find(|b| b.name == "b").unwrap();
    assert_eq!(b.children, vec!["a".to_string()]);
}

#[test]
fn rebase_errors() {
    let mut st = State::new();
    track_branch(&mut st, "main", None).unwrap();
    track_branch(&mut st, "a", Some("main")).unwrap();
    assert_eq!(rebase(&mut st, "ghost", "a"), Err(Error::UnknownBranch));
    assert_eq!(rebase(&mut st, "main", "a"), Err(Error::NoParent));
    assert_eq!(rebase(&mut st, "a", "ghost"), Err(Error::UnknownParent));
}

#[test]
fn prune_removes_stale_and_clears_references() {
    let mut st = State::new();
    track_branch(&mut st, "main", None).unwrap();
    track_branch(&mut st, "feat", Some("main")).unwrap();
    track_branch(&mut st, "gone", Some("main")).unwrap();
    track_branch(&mut st, "orphan", Some("gone")).unwrap();
    let existing = vec!["main".to_string(), "feat".to_string(), "orphan".to_string()];
    let removed = prune(&mut st, &existing);
    assert_eq!(removed, vec!["gone".to_string()]);
    assert_eq!(
        names(&st),
        vec!["main".to_string(), "feat".to_string(), "orphan".to_string()]
    );
    for b in &st.branches {
        assert!(existing.contains(&b.name));
        if let Some(p) = &b.parent {
            assert!(!removed.contains(p));
        }
        for c in &b.children {
            assert!(!removed.contains(c));
        }
    }
    let orphan = st.branches.iter().find(|b| b.name == "orphan").unwrap();
    assert_eq!(orphan.parent, None);
}

#[test]
fn prune_on_clean_state_removes_nothing() {
    let mut st = State::new();
    track_branch(&mut st, "main", None).unwrap();
    let existing = vec!["main".to_string(), "extra".to_string()];
    let removed = prune(&mut st, &existing);
    assert!(removed.is_empty());
    assert_eq!(names(&st), vec!["main".to_string()]);
}

#[test]
fn find_and_current_branch() {
    let mut st = State::new();
    track_branch(&mut st, "main", None).unwrap();
    assert!(st.find("main").is_some());
    assert!(st.find("ghost").is_none());
    let cur = st.get_current_branch("main").unwrap();
    assert_eq!(cur.name, "main");
    assert!(st.get_current_branch("ghost").is_none());
    let cur_mut = st.get_current_branch_mut("main").unwrap();
    cur_mut.parent = None;
    assert!(st.get_current_branch_mut("ghost").is_none());
}

#[test]
fn target_branch_resolution() {
    assert_eq!(get_target_branch(Some("pick"), "cur"), "pick".to_string());
    assert_eq!(get_target_branch(None, "cur"), "cur".to_string());
}

fn branch(name: &str, parent: Option<&str>, children: Vec<&str>) -> Branch {
    Branch {
        name: name.to_string(),
        parent: parent.map(|p| p.to_string()),
        children: children.into_iter().map(|c| c.to_string()).collect(),
    }
}

#[test]
fn untrack_strips_every_stale_reference() {
    // a corrupt state may list a leaf in several children lists
    let mut st = State {
        branches: vec![
            branch("main", None, vec!["leaf"]),
            branch("other", None, vec!["leaf", "kept"]),
            branch("kept", Some("other"), vec![]),
            branch("leaf", Some("main"), vec![]),
        ],
    };
    assert_eq!(untrack_branch(&mut st, "leaf"), Ok(()));
    for b in &st.branches {
        assert!(!b.children.contains(&"leaf".to_string()));
    }
    assert_eq!(st.branches.len(), 3);
}
