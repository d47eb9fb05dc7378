use stax::commands::track_branch;
use stax::model::Error;
use stax::model::State;
use stax::state::parse_state;
use stax::state::serialize_state;
use stax::state::state_plain_exec;

#[test]
fn serializes_to_the_persisted_shape() {
    let mut st = State::new();
    track_branch(&mut st, "main", None).unwrap();
    track_branch(&mut st, "feat", Some("main")).unwrap();
    assert!(state_plain_exec(&st));
    let text = serialize_state(&st);
    assert_eq!(
        text,
        "{\"branches\":[\
         {\"name\":\"main\",\"parent\":null,\"children\":[\"feat\"]},\
         {\"name\":\"feat\",\"parent\":\"main\",\"children\":[]}\
         ]}"
    );
}

#[test]
fn round_trip_preserves_the_forest() {
    let mut st = State::new();
    track_branch(&mut st, "main", None).unwrap();
    track_branch(&mut st, "feature-1", Some("main")).unwrap();
    track_branch(&mut st, "feature-2", Some("feature-1")).unwrap();
    track_branch(&mut st, "hotfix", Some("main")).unwrap();
    assert!(state_plain_exec(&st));
    let text = serialize_state(&st);
    let back = parse_state(&text).unwrap();
    assert_eq!(back.branches.len(), st.branches.len());
    for (a, b) in st.branches.iter().zip(back.branches.iter()) {
        assert_eq!(a.name, b.name);
        assert_eq!(a.parent, b.parent);
        assert_eq!(a.children, b.children);
    }
    // and the reloaded forest serializes to the very same text
    assert_eq!(serialize_state(&back), text);
}

#[test]
fn empty_text_is_the_empty_forest() {
    let st = parse_state("").unwrap();
    assert!(st.branches.is_empty());
    let empty = parse_state("{\"branches\":[]}").unwrap();
    assert!(empty.branches.is_empty());
}

#[test]
fn malformed_text_is_rejected() {
    assert!(matches!(parse_state("{"), Err(Error::StateCorrupted)));
    assert!(matches!(parse_state("{\"branches\":"), Err(Error::StateCorrupted)));
    assert!(matches!(parse_state("[]"), Err(Error::StateCorrupted)));
    assert!(matches!(
        parse_state("{\"branches\":[{\"name\":\"a\"}]}"),
        Err(Error::StateCorrupted)
    ));
    assert!(matches!(parse_state("{\"branches\":[]} "), Err(Error::StateCorrupted)));
    assert!(matches!(
        parse_state("{\"branches\":[{\"name\":\"a\\n\",\"parent\":null,\"children\":[]}]}"),
        Err(Error::StateCorrupted)
    ));
}

#[test]
fn unserializable_names_are_detected() {
    let mut st = State::new();
    track_branch(&mut st, "with\"quote", None).unwrap();
    assert!(!state_plain_exec(&st));
}
