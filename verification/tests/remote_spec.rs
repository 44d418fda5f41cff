use agt::error::SkillError;
use agt::remote::{addresses_repository, default_git_ref, format_spec, parse_spec, RemoteSpec};

fn spec(owner: &str, repo: &str, path: &str, git_ref: &str) -> RemoteSpec {
    RemoteSpec {
        owner: owner.to_string(),
        repo: repo.to_string(),
        path: path.to_string(),
        git_ref: git_ref.to_string(),
    }
}

#[test]
fn owner_and_repo_alone_address_the_repository() {
    let s = parse_spec("owner/repo").unwrap();
    assert_eq!(s, spec("owner", "repo", "", "main"));
    assert_eq!(s.path, "");
    assert!(addresses_repository(&s));
}

#[test]
fn path_and_ref_are_read() {
    assert_eq!(
        parse_spec("acme/skills/writing/haiku@v2").unwrap(),
        spec("acme", "skills", "writing/haiku", "v2")
    );
    assert_eq!(parse_spec("o/r/p").unwrap(), spec("o", "r", "p", "main"));
    assert_eq!(parse_spec("o/r@dev").unwrap(), spec("o", "r", "", "dev"));
    assert!(!addresses_repository(&parse_spec("o/r/p").unwrap()));
}

#[test]
fn the_last_at_sign_starts_the_ref() {
    assert_eq!(parse_spec("o/r/a@b/c@v1").unwrap(), spec("o", "r", "a@b/c", "v1"));
    assert_eq!(parse_spec("o/r/p@feature/x").unwrap(), spec("o", "r", "p", "feature/x"));
    assert_eq!(parse_spec("a@b/r/p@x").unwrap(), spec("a@b", "r", "p", "x"));
}

#[test]
fn an_empty_ref_is_the_default_ref() {
    assert_eq!(parse_spec("o/r@").unwrap(), spec("o", "r", "", "main"));
    assert_eq!(default_git_ref(), "main");
}

#[test]
fn a_trailing_slash_leaves_the_path_empty() {
    assert_eq!(parse_spec("o/r/").unwrap(), spec("o", "r", "", "main"));
}

#[test]
fn malformed_addresses_are_invalid() {
    for text in ["", "owner", "/repo", "owner/", "owner//path", "@v1", "owner@v1", "a@b/c"] {
        assert_eq!(parse_spec(text), Err(SkillError::InvalidSpec), "{}", text);
    }
}

#[test]
fn a_dotdot_segment_is_refused() {
    for text in ["o/r/..", "o/r/../x", "o/r/a/..", "o/r/a/../b@v1"] {
        assert_eq!(parse_spec(text), Err(SkillError::InvalidSpec), "{}", text);
    }
    assert_eq!(parse_spec("o/r/a..b").unwrap(), spec("o", "r", "a..b", "main"));
    assert_eq!(parse_spec("o/r/...").unwrap(), spec("o", "r", "...", "main"));
}

#[test]
fn format_writes_the_canonical_text() {
    assert_eq!(format_spec(&spec("o", "r", "", "main")), "o/r@main");
    assert_eq!(format_spec(&spec("o", "r", "g/s", "v1")), "o/r/g/s@v1");
}

#[test]
fn normalisation_is_idempotent() {
    for text in ["o/r", "o/r/", "o/r@", "o/r/p/q@v1", "a@b/r/p@x", "o/r/p@feature/x", "o/r@x/y"] {
        let first = parse_spec(text).unwrap();
        let canonical = format_spec(&first);
        let second = parse_spec(&canonical).unwrap();
        assert_eq!(first, second, "{}", text);
        assert_eq!(format_spec(&second), canonical, "{}", text);
    }
}
