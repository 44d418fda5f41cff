use agt::manifest::{
    default_strategy, parse_strategy, validate_copy_rule, validate_manifest, Manifest, RuleError,
    Setup, SetupCopy, Strategy,
};

fn rule(from: &str, to: &str, strategy: &str) -> SetupCopy {
    SetupCopy { from: from.to_string(), to: to.to_string(), strategy: strategy.to_string() }
}

#[test]
fn test_validate_path_traversal_source() {
    let rule = SetupCopy {
        from: "../etc".to_string(),
        to: "~/.agents".to_string(),
        strategy: "merge".to_string(),
    };
    assert!(validate_copy_rule(&rule).is_err());
}

#[test]
fn test_validate_absolute_source() {
    let rule = SetupCopy {
        from: "/etc/passwd".to_string(),
        to: "~/.agents".to_string(),
        strategy: "merge".to_string(),
    };
    assert!(validate_copy_rule(&rule).is_err());
}

#[test]
fn test_validate_non_home_target() {
    let rule = SetupCopy {
        from: "static".to_string(),
        to: "/tmp/evil".to_string(),
        strategy: "merge".to_string(),
    };
    assert!(validate_copy_rule(&rule).is_err());
}

#[test]
fn test_validate_target_traversal() {
    let rule = SetupCopy {
        from: "static".to_string(),
        to: "~/../etc".to_string(),
        strategy: "merge".to_string(),
    };
    assert!(validate_copy_rule(&rule).is_err());
}

#[test]
fn test_validate_invalid_strategy() {
    let rule = SetupCopy {
        from: "static".to_string(),
        to: "~/.agents".to_string(),
        strategy: "yolo".to_string(),
    };
    assert!(validate_copy_rule(&rule).is_err());
}

#[test]
fn safe_rules_are_accepted() {
    assert_eq!(validate_copy_rule(&rule("static", "~/.agents", "merge")), Ok(()));
    assert_eq!(validate_copy_rule(&rule("static/a.txt", "~", "replace")), Ok(()));
    assert_eq!(validate_copy_rule(&rule("", "~/agents", "merge")), Ok(()));
}

#[test]
fn each_rule_error_has_its_input() {
    assert_eq!(validate_copy_rule(&rule("../etc", "~/x", "merge")), Err(RuleError::SourceEscapes));
    assert_eq!(validate_copy_rule(&rule("a..b", "~/x", "merge")), Err(RuleError::SourceEscapes));
    assert_eq!(validate_copy_rule(&rule("/abs", "~/x", "merge")), Err(RuleError::SourceEscapes));
    assert_eq!(validate_copy_rule(&rule("a", "/tmp/x", "merge")), Err(RuleError::TargetNotHome));
    assert_eq!(validate_copy_rule(&rule("a", "~x", "merge")), Err(RuleError::TargetNotHome));
    assert_eq!(validate_copy_rule(&rule("static", "~\\x", "merge")), Err(RuleError::TargetNotHome));
    assert_eq!(validate_copy_rule(&rule("a", "~\\", "replace")), Err(RuleError::TargetNotHome));
    assert_eq!(validate_copy_rule(&rule("a", "", "merge")), Err(RuleError::TargetNotHome));
    assert_eq!(validate_copy_rule(&rule("a", "~/../etc", "merge")), Err(RuleError::TargetTraversal));
    assert_eq!(validate_copy_rule(&rule("a", "~/x", "Merge")), Err(RuleError::UnknownStrategy));
    assert_eq!(validate_copy_rule(&rule("a", "~/x", "")), Err(RuleError::UnknownStrategy));
}

#[test]
fn first_failing_check_names_the_error() {
    assert_eq!(validate_copy_rule(&rule("../etc", "/tmp/x", "yolo")), Err(RuleError::SourceEscapes));
    assert_eq!(validate_copy_rule(&rule("a", "/tmp/../x", "yolo")), Err(RuleError::TargetNotHome));
}

#[test]
fn default_strategy_is_merge() {
    assert_eq!(default_strategy(), "merge");
    assert_eq!(parse_strategy("merge"), Some(Strategy::Merge));
    assert_eq!(parse_strategy("replace"), Some(Strategy::Replace));
    assert_eq!(parse_strategy("yolo"), None);
}

#[test]
fn manifest_is_refused_at_its_first_bad_rule() {
    let good = Manifest {
        setup: Setup { copy: vec![rule("static", "~/.agents", "merge"), rule("a", "~", "replace")] },
    };
    assert_eq!(validate_manifest(&good), Ok(()));
    let bad = Manifest {
        setup: Setup {
            copy: vec![
                rule("static", "~/.agents", "merge"),
                rule("../etc", "~/.agents", "merge"),
                rule("a", "/tmp/x", "merge"),
            ],
        },
    };
    assert_eq!(validate_manifest(&bad), Err((1, RuleError::SourceEscapes)));
    let other = Manifest { setup: Setup { copy: vec![rule("static", "/tmp/x", "merge")] } };
    assert_eq!(validate_manifest(&other), Err((0, RuleError::TargetNotHome)));
    assert_eq!(validate_manifest(&Manifest::default()), Ok(()));
}
