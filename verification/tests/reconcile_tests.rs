use agt::error::SkillError;
use agt::installed::{find_all_remote_skills, installed_skill_names, Place};
use agt::library::Profile;
use agt::listing::list_installed;
use agt::reconcile::{
    copy_node, install, install_at, install_batch, install_flat, install_profile, install_remote,
    install_remote_repo, install_selected_skills, remote_copy, skill_path, Tally,
};
use agt::remote::{parse_spec, RemoteSpec};
use agt::tree::{node_is_remote, Entry, Node};
use agt::uninstall::{uninstall, Removed};
use agt::update::Scope;

fn file(name: &str, content: &str) -> Entry {
    Entry { name: name.to_string(), node: Node::File { content: content.to_string() } }
}

fn link(name: &str, target: &str) -> Entry {
    Entry { name: name.to_string(), node: Node::Link { target: target.to_string() } }
}

fn dir(name: &str, entries: Vec<Entry>) -> Entry {
    Entry { name: name.to_string(), node: Node::Dir { entries } }
}

fn skill(name: &str) -> Entry {
    dir(name, vec![file("SKILL.md", name), file("body.txt", "text")])
}

fn pair(g: &str, n: &str) -> (String, String) {
    (g.to_string(), n.to_string())
}

fn library() -> Vec<Entry> {
    vec![dir("writing", vec![skill("haiku")]), dir("coding", vec![skill("review")])]
}

fn origin() -> RemoteSpec {
    parse_spec("acme/skills@v1").unwrap()
}

#[test]
fn a_skill_is_installed_as_a_link_in_its_group() {
    let mut target: Vec<Entry> = Vec::new();
    assert_eq!(install(&library(), "/lib", "haiku", &mut target, false), Ok("writing".to_string()));
    assert_eq!(target, vec![dir("writing", vec![link("haiku", "/lib/writing/haiku")])]);
    assert_eq!(skill_path("/lib", "writing", "haiku"), "/lib/writing/haiku");
}

#[test]
fn a_second_install_without_force_is_a_conflict() {
    let mut target: Vec<Entry> = Vec::new();
    install(&library(), "/lib", "haiku", &mut target, false).unwrap();
    let after_first = vec![dir("writing", vec![link("haiku", "/lib/writing/haiku")])];
    assert_eq!(target, after_first);
    assert_eq!(install(&library(), "/lib", "haiku", &mut target, false), Err(SkillError::Conflict));
    assert_eq!(target, after_first);
}

#[test]
fn a_second_install_with_force_equals_a_fresh_install() {
    let mut once: Vec<Entry> = Vec::new();
    install(&library(), "/lib", "haiku", &mut once, false).unwrap();
    let mut twice: Vec<Entry> = Vec::new();
    install(&library(), "/lib", "haiku", &mut twice, false).unwrap();
    assert_eq!(install(&library(), "/lib", "haiku", &mut twice, true), Ok("writing".to_string()));
    assert_eq!(once, twice);
}

#[test]
fn a_forced_install_equals_a_fresh_one_into_the_target_without_the_old_entry() {
    for old in [skill("haiku"), file("haiku", "x"), link("haiku", "/elsewhere")] {
        let mut forced = vec![
            link("flat", "/x"),
            dir("writing", vec![link("essay", "/e"), old, link("ode", "/o")]),
        ];
        let mut fresh = vec![
            link("flat", "/x"),
            dir("writing", vec![link("essay", "/e"), link("ode", "/o")]),
        ];
        assert_eq!(install(&library(), "/lib", "haiku", &mut forced, true), Ok("writing".to_string()));
        assert_eq!(install(&library(), "/lib", "haiku", &mut fresh, false), Ok("writing".to_string()));
        assert_eq!(forced, fresh);
        assert_eq!(
            fresh[1],
            dir(
                "writing",
                vec![link("essay", "/e"), link("ode", "/o"), link("haiku", "/lib/writing/haiku")]
            )
        );
    }
}

#[test]
fn force_replaces_what_stood_there() {
    let mut target = vec![dir("writing", vec![skill("haiku"), link("essay", "/x")])];
    assert_eq!(install(&library(), "/lib", "haiku", &mut target, true), Ok("writing".to_string()));
    assert_eq!(
        target,
        vec![dir("writing", vec![link("essay", "/x"), link("haiku", "/lib/writing/haiku")])]
    );
}

#[test]
fn an_unknown_skill_is_not_found() {
    let mut target = vec![link("keep", "/x")];
    assert_eq!(install(&library(), "/lib", "nothing", &mut target, true), Err(SkillError::NotFound));
    assert_eq!(target, vec![link("keep", "/x")]);
}

#[test]
fn a_file_in_place_of_the_group_is_an_io_failure() {
    let mut target = vec![file("writing", "")];
    assert_eq!(install(&library(), "/lib", "haiku", &mut target, true), Err(SkillError::IoFailure));
    assert_eq!(target, vec![file("writing", "")]);
    let node = Node::Link { target: "/x".to_string() };
    assert_eq!(install_at(&mut target, "writing", "a", node, false), Err(SkillError::IoFailure));
}

#[test]
fn a_batch_counts_installed_and_skipped() {
    let mut target = vec![dir("coding", vec![link("review", "/old")])];
    let skills = vec![pair("writing", "haiku"), pair("gone", "away"), pair("coding", "review")];
    assert_eq!(
        install_selected_skills(&library(), "/lib", &skills, &mut target, false),
        Ok(Tally { installed: 1, skipped: 2 })
    );
    assert_eq!(
        target,
        vec![
            dir("coding", vec![link("review", "/old")]),
            dir("writing", vec![link("haiku", "/lib/writing/haiku")]),
        ]
    );
    assert_eq!(
        install_selected_skills(&library(), "/lib", &skills, &mut target, true),
        Ok(Tally { installed: 2, skipped: 1 })
    );
    assert_eq!(
        install_batch(&library(), "/lib", None, &vec![], &mut target, true),
        Ok(Tally { installed: 0, skipped: 0 })
    );
}

#[test]
fn a_batch_stops_at_an_io_failure_and_keeps_what_it_did() {
    let mut target = vec![file("coding", "")];
    let skills = vec![pair("writing", "haiku"), pair("coding", "review"), pair("writing", "haiku")];
    assert_eq!(
        install_selected_skills(&library(), "/lib", &skills, &mut target, false),
        Err(SkillError::IoFailure)
    );
    assert_eq!(
        target,
        vec![file("coding", ""), dir("writing", vec![link("haiku", "/lib/writing/haiku")])]
    );
}

#[test]
fn a_missing_profile_is_not_found_and_touches_nothing() {
    let mut target: Vec<Entry> = Vec::new();
    assert_eq!(
        install_profile("nope", &library(), &vec![], "/lib", &mut target, false),
        Err(SkillError::NotFound)
    );
    assert!(target.is_empty());
    let declared = vec![Profile {
        name: "core".to_string(),
        description: String::new(),
        skills: vec![pair("coding", "review"), pair("coding", "gone")],
    }];
    assert_eq!(
        install_profile("core", &library(), &declared, "/lib", &mut target, false),
        Ok(Tally { installed: 1, skipped: 1 })
    );
    assert_eq!(target, vec![dir("coding", vec![link("review", "/lib/coding/review")])]);
}

#[test]
fn install_all_then_list_then_uninstall_a_group() {
    let mut local: Vec<Entry> = Vec::new();
    assert_eq!(
        install_profile("all", &library(), &vec![], "/lib", &mut local, false),
        Ok(Tally { installed: 2, skipped: 0 })
    );
    assert_eq!(
        local,
        vec![
            dir("writing", vec![link("haiku", "/lib/writing/haiku")]),
            dir("coding", vec![link("review", "/lib/coding/review")]),
        ]
    );
    let listed = list_installed(&local, &vec![]);
    assert_eq!(listed.len(), 2);
    assert!(listed.iter().all(|l| l.scope == Scope::Local));
    assert_eq!(listed[0].place, Place { group: Some("writing".to_string()), name: "haiku".to_string() });
    assert_eq!(listed[1].place, Place { group: Some("coding".to_string()), name: "review".to_string() });
    assert_eq!(uninstall(&mut local, "writing"), Ok(Removed::Group(vec!["haiku".to_string()])));
    assert_eq!(local, vec![dir("coding", vec![link("review", "/lib/coding/review")])]);
    assert_eq!(installed_skill_names(&local).len(), 1);
}

#[test]
fn a_copy_equals_its_source() {
    let tree = dir("a", vec![skill("b"), link("c", "/x"), dir("d", vec![dir("e", vec![])])]);
    assert_eq!(copy_node(&tree.node), tree.node);
}

#[test]
fn a_remote_copy_carries_the_record_of_its_origin() {
    let with_old = dir("s", vec![file(".remote-source", "old"), file("SKILL.md", "")]);
    let spec = parse_spec("acme/skills/g/s@v1").unwrap();
    let copy = remote_copy(&with_old.node, &spec);
    assert_eq!(
        copy,
        dir("s", vec![file("SKILL.md", ""), file(".remote-source", "acme/skills/g/s@v1")]).node
    );
    assert!(node_is_remote(&copy));
    assert!(!node_is_remote(&link("s", "/lib/g/s").node));
}

#[test]
fn a_fetched_repository_is_installed_as_copies_with_their_own_origin() {
    let mut target: Vec<Entry> = Vec::new();
    assert_eq!(
        install_remote_repo(&library(), &origin(), None, &mut target, false),
        Ok(Tally { installed: 2, skipped: 0 })
    );
    assert_eq!(
        target,
        vec![
            dir(
                "writing",
                vec![dir(
                    "haiku",
                    vec![
                        file("SKILL.md", "haiku"),
                        file("body.txt", "text"),
                        file(".remote-source", "acme/skills/writing/haiku@v1"),
                    ],
                )],
            ),
            dir(
                "coding",
                vec![dir(
                    "review",
                    vec![
                        file("SKILL.md", "review"),
                        file("body.txt", "text"),
                        file(".remote-source", "acme/skills/coding/review@v1"),
                    ],
                )],
            ),
        ]
    );
    assert_eq!(find_all_remote_skills(&target).len(), 2);
    assert_eq!(
        install_remote_repo(&library(), &origin(), None, &mut target, false),
        Ok(Tally { installed: 0, skipped: 2 })
    );
}

#[test]
fn a_chosen_part_of_a_repository_is_installed() {
    let mut target: Vec<Entry> = Vec::new();
    let chosen = vec![pair("coding", "review"), pair("coding", "missing")];
    assert_eq!(
        install_remote_repo(&library(), &origin(), Some(&chosen), &mut target, false),
        Ok(Tally { installed: 1, skipped: 1 })
    );
    assert_eq!(installed_skill_names(&target), vec!["review"]);
}

#[test]
fn a_repository_without_skills_is_not_found() {
    let mut target = vec![link("keep", "/x")];
    let empty = vec![dir("docs", vec![file("a.md", "")]), file("README.md", "")];
    assert_eq!(
        install_remote_repo(&empty, &origin(), None, &mut target, true),
        Err(SkillError::NotFound)
    );
    assert_eq!(target, vec![link("keep", "/x")]);
}

#[test]
fn one_fetched_skill_goes_into_the_group_of_its_path() {
    let fetched = skill("haiku").node;
    let spec = parse_spec("acme/skills/writing/haiku@v1").unwrap();
    let mut target: Vec<Entry> = Vec::new();
    assert_eq!(
        install_remote(&fetched, &spec, &mut target, false),
        Ok(Place { group: Some("writing".to_string()), name: "haiku".to_string() })
    );
    assert_eq!(
        target,
        vec![dir(
            "writing",
            vec![dir(
                "haiku",
                vec![
                    file("SKILL.md", "haiku"),
                    file("body.txt", "text"),
                    file(".remote-source", "acme/skills/writing/haiku@v1"),
                ],
            )],
        )]
    );
    assert_eq!(install_remote(&fetched, &spec, &mut target, false), Err(SkillError::Conflict));
    let before = copy_node(&target[0].node);
    assert!(install_remote(&fetched, &spec, &mut target, true).is_ok());
    assert_eq!(target[0].node, before);
}

#[test]
fn a_separator_at_the_end_of_the_path_changes_nothing() {
    let fetched = skill("haiku").node;
    let spec = parse_spec("o/r/writing/haiku/").unwrap();
    assert_eq!(spec.path, "writing/haiku/");
    let mut target: Vec<Entry> = Vec::new();
    assert_eq!(
        install_remote(&fetched, &spec, &mut target, false),
        Ok(Place { group: Some("writing".to_string()), name: "haiku".to_string() })
    );
    assert_eq!(
        target,
        vec![dir(
            "writing",
            vec![dir(
                "haiku",
                vec![
                    file("SKILL.md", "haiku"),
                    file("body.txt", "text"),
                    file(".remote-source", "o/r/writing/haiku/@main"),
                ],
            )],
        )]
    );
    match &target[0].node {
        Node::Dir { entries } => assert_eq!(agt::update::read_metadata(&entries[0].node), Ok(spec)),
        _ => unreachable!(),
    }
    let flat = parse_spec("o/r/solo/").unwrap();
    let mut other: Vec<Entry> = Vec::new();
    assert_eq!(
        install_remote(&skill("solo").node, &flat, &mut other, false),
        Ok(Place { group: None, name: "solo".to_string() })
    );
    let none = parse_spec("o/r//").unwrap();
    assert_eq!(install_remote(&fetched, &none, &mut other, true), Err(SkillError::InvalidSpec));
}

#[test]
fn a_path_of_one_segment_is_installed_flat() {
    let fetched = skill("solo").node;
    let spec = parse_spec("acme/skills/solo").unwrap();
    let mut target = vec![link("other", "/x")];
    assert_eq!(
        install_remote(&fetched, &spec, &mut target, false),
        Ok(Place { group: None, name: "solo".to_string() })
    );
    assert_eq!(target.len(), 2);
    assert_eq!(target[1].name, "solo");
    assert!(node_is_remote(&target[1].node));
    assert_eq!(install_remote(&fetched, &spec, &mut target, false), Err(SkillError::Conflict));
    let node = Node::Link { target: "/y".to_string() };
    assert_eq!(install_flat(&mut target, "other", node, false), Err(SkillError::Conflict));
}

#[test]
fn a_repository_address_or_a_non_skill_is_refused_as_one_skill() {
    let mut target: Vec<Entry> = Vec::new();
    assert_eq!(
        install_remote(&skill("x").node, &origin(), &mut target, false),
        Err(SkillError::InvalidSpec)
    );
    let spec = parse_spec("acme/skills/g/x").unwrap();
    assert_eq!(
        install_remote(&dir("x", vec![]).node, &spec, &mut target, false),
        Err(SkillError::RemoteFailure)
    );
    assert!(target.is_empty());
}
