use stax::commands::create_child_branch;
use stax::commands::track_branch;
use stax::model::Branch;
use stax::model::State;
use stax::util::print_branch_tree;

fn branch(name: &str, parent: Option<&str>) -> Branch {
    Branch {
        name: name.to_string(),
        parent: parent.map(|p| p.to_string()),
        children: Vec::new(),
    }
}

#[test]
fn stacked_scenario_renders_with_terminal_connectors() {
    let mut st = State::new();
    track_branch(&mut st, "main", None).unwrap();
    create_child_branch(&mut st, "feature-1", "main").unwrap();
    create_child_branch(&mut st, "feature-2", "feature-1").unwrap();
    let lines = print_branch_tree(&st.branches, "feature-2");
    assert_eq!(
        lines,
        vec![
            "main".to_string(),
            "└─ feature-1".to_string(),
            "   └─ feature-2 ← you are here".to_string(),
        ]
    );
}

#[test]
fn siblings_sorted_with_through_connector() {
    let mut st = State::new();
    track_branch(&mut st, "main", None).unwrap();
    track_branch(&mut st, "zeta", Some("main")).unwrap();
    track_branch(&mut st, "alpha", Some("main")).unwrap();
    let lines = print_branch_tree(&st.branches, "main");
    assert_eq!(
        lines,
        vec![
            "main ← you are here".to_string(),
            "├─ alpha".to_string(),
            "└─ zeta".to_string(),
        ]
    );
}

#[test]
fn roots_render_in_sorted_order() {
    let mut st = State::new();
    track_branch(&mut st, "work", None).unwrap();
    track_branch(&mut st, "base", None).unwrap();
    let lines = print_branch_tree(&st.branches, "nowhere");
    assert_eq!(lines, vec!["base".to_string(), "work".to_string()]);
}

#[test]
fn cycle_is_marked_not_followed() {
    // a corrupted file can hold two records of one name, closing a
    // name cycle: a -> b -> a
    let st = State {
        branches: vec![
            branch("a", None),
            branch("b", Some("a")),
            branch("a", Some("b")),
        ],
    };
    let lines = print_branch_tree(&st.branches, "nowhere");
    assert!(lines.iter().any(|l| l.contains("(cycle detected)")));
    assert!(lines.len() <= 6);
}

#[test]
fn mutual_parents_terminate() {
    // a -> b -> a with no root: nothing is reachable, and the walk
    // still terminates
    let st = State {
        branches: vec![branch("a", Some("b")), branch("b", Some("a"))],
    };
    let lines = print_branch_tree(&st.branches, "a");
    assert!(lines.is_empty());
}

#[test]
fn tree_command_renders_from_the_state() {
    let mut st = State::new();
    track_branch(&mut st, "main", None).unwrap();
    let lines = stax::commands::command_print_branch_tree(&st, "main");
    assert_eq!(lines, vec!["main ← you are here".to_string()]);
}

#[test]
fn empty_forest_renders_nothing() {
    let st = State::new();
    let lines = print_branch_tree(&st.branches, "main");
    assert!(lines.is_empty());
}
