use std::path::PathBuf;

use agt::manifest::{join_path, resolve_home, resolve_home_in};

#[test]
fn test_resolve_home() {
    let home = dirs::home_dir().unwrap();
    assert_eq!(PathBuf::from(resolve_home("~/.agents")), home.join(".agents"));
    assert_eq!(PathBuf::from(resolve_home("~/foo/bar")), home.join("foo/bar"));
    assert_eq!(PathBuf::from(resolve_home("~")), home);
}

#[test]
fn other_paths_are_left_alone() {
    assert_eq!(resolve_home("/tmp/x"), "/tmp/x");
    assert_eq!(resolve_home("rel/x"), "rel/x");
    assert_eq!(resolve_home("~x"), "~x");
    assert_eq!(resolve_home(""), "");
}

#[test]
fn home_is_resolved_against_the_given_directory() {
    let home = Some("/home/alice".to_string());
    assert_eq!(resolve_home_in("~/.agents", home.clone()), "/home/alice/.agents");
    assert_eq!(resolve_home_in("~", home.clone()), "/home/alice");
    assert_eq!(resolve_home_in("~/", home.clone()), "/home/alice/");
    assert_eq!(resolve_home_in("~//etc", home.clone()), "/etc");
    assert_eq!(resolve_home_in("/abs", home), "/abs");
    assert_eq!(resolve_home_in("~/a", Some("/".to_string())), "/a");
    assert_eq!(resolve_home_in("~/a", Some(String::new())), "a");
}

#[test]
fn without_a_home_the_tilde_stands_in() {
    assert_eq!(resolve_home_in("~/.agents", None), "~/.agents");
    assert_eq!(resolve_home_in("~", None), "~");
}

#[test]
fn join_agrees_with_the_standard_paths() {
    for (base, rest) in [("/home/a", "b"), ("/home/a/", "b/c"), ("/home/a", "/etc"), ("", "b"), ("/", "b"), ("/home/a", "")] {
        assert_eq!(PathBuf::from(join_path(base, rest)), PathBuf::from(base).join(rest));
    }
}
