use agt::error::SkillError;
use agt::library::{
    all_skills, find_skill_in_source, group_has_skill, has_skill_at, list_profiles,
    resolve_profile, skill_groups, skills_in_group, Profile,
};
use agt::tree::{node_is_group, node_is_skill, Entry, Node};

fn file(name: &str, content: &str) -> Entry {
    Entry { name: name.to_string(), node: Node::File { content: content.to_string() } }
}

fn link(name: &str, target: &str) -> Entry {
    Entry { name: name.to_string(), node: Node::Link { target: target.to_string() } }
}

fn dir(name: &str, entries: Vec<Entry>) -> Entry {
    Entry { name: name.to_string(), node: Node::Dir { entries } }
}

fn skill(name: &str) -> Entry {
    dir(name, vec![file("SKILL.md", "---\ndescription: x\n---\n")])
}

fn pair(g: &str, n: &str) -> (String, String) {
    (g.to_string(), n.to_string())
}

fn library() -> Vec<Entry> {
    vec![
        file("README.md", "hello"),
        dir("writing", vec![skill("haiku"), skill("essay"), dir("drafts", vec![]), file("notes", "")]),
        skill("loose"),
        dir("coding", vec![skill("review"), skill("haiku")]),
        link("linked", "/elsewhere"),
        dir("empty", vec![]),
    ]
}

#[test]
fn a_directory_is_a_group_or_a_skill_never_both() {
    let nodes = [
        skill("s").node,
        dir("g", vec![skill("s")]).node,
        dir("e", vec![]).node,
        file("f", "").node,
        link("l", "/x").node,
    ];
    let expect = [(false, true), (true, false), (true, false), (false, false), (false, false)];
    for (n, (group, is_skill)) in nodes.iter().zip(expect) {
        assert_eq!(node_is_group(n), group);
        assert_eq!(node_is_skill(n), is_skill);
        assert!(!(node_is_group(n) && node_is_skill(n)));
        if matches!(n, Node::Dir { .. }) {
            assert_eq!(node_is_group(n), !node_is_skill(n));
        }
    }
}

#[test]
fn groups_are_the_top_level_directories_without_marker() {
    assert_eq!(skill_groups(&library()), vec!["writing", "coding", "empty"]);
    assert!(skill_groups(&vec![]).is_empty());
}

#[test]
fn groups_are_listed_once() {
    let lib = vec![dir("a", vec![]), dir("b", vec![]), dir("a", vec![skill("x")])];
    assert_eq!(skill_groups(&lib), vec!["a", "b"]);
}

#[test]
fn skills_of_a_group_are_its_children_with_marker() {
    let lib = library();
    assert_eq!(skills_in_group(&lib, "writing"), vec!["haiku", "essay"]);
    assert_eq!(skills_in_group(&lib, "coding"), vec!["review", "haiku"]);
    assert!(skills_in_group(&lib, "empty").is_empty());
    assert!(skills_in_group(&lib, "missing").is_empty());
    assert!(skills_in_group(&lib, "README.md").is_empty());
}

#[test]
fn a_skill_is_found_in_the_first_group_that_has_it() {
    let lib = library();
    assert_eq!(find_skill_in_source(&lib, "haiku"), Some("writing".to_string()));
    assert_eq!(find_skill_in_source(&lib, "review"), Some("coding".to_string()));
    assert_eq!(find_skill_in_source(&lib, "drafts"), None);
    assert_eq!(find_skill_in_source(&lib, "loose"), None);
    assert_eq!(find_skill_in_source(&lib, "nothing"), None);
    assert!(has_skill_at(&lib, "coding", "haiku"));
    assert!(!has_skill_at(&lib, "coding", "essay"));
}

#[test]
fn what_is_found_is_a_skill_in_a_group() {
    let shadowed = vec![
        dir("a", vec![file("SKILL.md", ""), skill("x")]),
        dir("a", vec![skill("x")]),
        dir("b", vec![skill("y")]),
    ];
    assert_eq!(skill_groups(&shadowed), vec!["a", "b"]);
    assert!(has_skill_at(&shadowed, "a", "x"));
    assert!(!group_has_skill(&shadowed, "a", "x"));
    assert_eq!(find_skill_in_source(&shadowed, "x"), None);
    assert_eq!(find_skill_in_source(&shadowed, "y"), Some("b".to_string()));
    assert!(group_has_skill(&shadowed, "b", "y"));
}

#[test]
fn all_is_every_skill_in_group_order() {
    let lib = library();
    let every = vec![
        pair("writing", "haiku"),
        pair("writing", "essay"),
        pair("coding", "review"),
        pair("coding", "haiku"),
    ];
    assert_eq!(all_skills(&lib), every);
    let all = resolve_profile("all", &lib, &vec![]).unwrap();
    assert_eq!(all.name, "all");
    assert_eq!(all.description, "every skill");
    assert_eq!(all.skills, every);
}

#[test]
fn declared_profiles_are_looked_up_by_name() {
    let lib = library();
    let declared = vec![
        Profile {
            name: "core".to_string(),
            description: "the core".to_string(),
            skills: vec![pair("writing", "haiku"), pair("gone", "away")],
        },
        Profile { name: "dev".to_string(), description: "dev".to_string(), skills: vec![] },
    ];
    assert_eq!(resolve_profile("core", &lib, &declared).unwrap(), declared[0]);
    assert_eq!(resolve_profile("dev", &lib, &declared).unwrap(), declared[1]);
    assert_eq!(resolve_profile("nope", &lib, &declared), Err(SkillError::NotFound));
    assert_eq!(resolve_profile("", &lib, &vec![]), Err(SkillError::NotFound));
}

#[test]
fn profiles_are_listed_with_their_counts() {
    let lib = library();
    let declared = vec![Profile {
        name: "core".to_string(),
        description: "the core".to_string(),
        skills: vec![pair("writing", "haiku"), pair("gone", "away")],
    }];
    let listed = list_profiles(&lib, &declared, true);
    assert_eq!(listed.len(), 2);
    assert_eq!(listed[0].0, "all");
    assert_eq!(listed[0].1, "every skill");
    assert_eq!(listed[0].2, 4);
    assert_eq!(listed[1], ("core".to_string(), "the core".to_string(), 2));
    let remote = list_profiles(&lib, &declared, false);
    assert_eq!(remote, vec![("core".to_string(), "the core".to_string(), 2)]);
    assert_eq!(list_profiles(&lib, &declared, true), listed);
}
