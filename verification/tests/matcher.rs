use stax::commands::checkout;
use stax::git_util::GitBranch;
use stax::model::Error;
use stax::util::match_branches;
use stax::util::str_contains;

fn branches(names: &[&str]) -> Vec<GitBranch> {
    names.iter().map(|n| GitBranch::new(n.to_string())).collect()
}

fn matchers(ms: &[&str]) -> Vec<String> {
    ms.iter().map(|m| m.to_string()).collect()
}

#[test]
fn substring_matching_is_unanchored_and_case_sensitive() {
    assert!(str_contains("feature-a", "ture"));
    assert!(str_contains("feature-a", ""));
    assert!(!str_contains("feature-a", "Feature"));
    assert!(!str_contains("fe", "feature"));
    assert!(str_contains("abc", "abc"));
}

#[test]
fn filters_are_conjunctive() {
    let bs = branches(&["feature-a", "feature-ab", "other"]);
    let m = match_branches(&bs, &matchers(&["feature", "a"]));
    assert_eq!(m, vec!["feature-a".to_string(), "feature-ab".to_string()]);
}

#[test]
fn empty_filter_list_matches_all() {
    let bs = branches(&["feature-a", "feature-ab", "other"]);
    let m = match_branches(&bs, &matchers(&[]));
    assert_eq!(
        m,
        vec![
            "feature-a".to_string(),
            "feature-ab".to_string(),
            "other".to_string()
        ]
    );
}

#[test]
fn checkout_single_match_resolves() {
    let bs = branches(&["feature-a", "feature-ab", "other"]);
    assert_eq!(checkout(&matchers(&["other"]), &bs), Ok("other".to_string()));
    assert_eq!(checkout(&matchers(&["feature", "ab"]), &bs), Ok("feature-ab".to_string()));
}

#[test]
fn checkout_no_match_fails() {
    let bs = branches(&["feature-a", "feature-ab", "other"]);
    assert_eq!(checkout(&matchers(&["zzz"]), &bs), Err(Error::NoMatch));
}

#[test]
fn checkout_many_matches_is_ambiguous_headless() {
    let bs = branches(&["feature-a", "feature-ab", "other"]);
    assert_eq!(checkout(&matchers(&["feature"]), &bs), Err(Error::AmbiguousMatch));
}
