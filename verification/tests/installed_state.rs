use agt::error::SkillError;
use agt::installed::{
    find_all_remote_skills, find_installed_skill, find_update_targets, find_virtual_group_skills,
    inferred_group, installed_skill_names, locate, trim_separator, which, Found, Place, Slot,
};
use agt::paths::{last_name_of, parent_dir_name, split_path};
use agt::listing::{list, list_installed, list_skills_in_dir, skill_status, Listed, Origin, Status};
use agt::tree::{Entry, Node};
use agt::update::Scope;

fn file(name: &str, content: &str) -> Entry {
    Entry { name: name.to_string(), node: Node::File { content: content.to_string() } }
}

fn link(name: &str, target: &str) -> Entry {
    Entry { name: name.to_string(), node: Node::Link { target: target.to_string() } }
}

fn dir(name: &str, entries: Vec<Entry>) -> Entry {
    Entry { name: name.to_string(), node: Node::Dir { entries } }
}

fn copied(name: &str, record: &str) -> Entry {
    dir(name, vec![file("SKILL.md", ""), file(".remote-source", record)])
}

fn plain(name: &str) -> Entry {
    dir(name, vec![file("SKILL.md", "")])
}

fn at(group: Option<&str>, name: &str) -> Place {
    Place { group: group.map(|g| g.to_string()), name: name.to_string() }
}

fn target() -> Vec<Entry> {
    vec![
        file(".DS_Store", ""),
        dir(
            "writing",
            vec![
                link("haiku", "/lib/writing/haiku"),
                copied("essay", "o/r/writing/essay@main"),
                file(".keep", ""),
            ],
        ),
        link("flat", "/lib/coding/flat"),
        copied("fetched", "o/r/fetched@v1"),
        plain("old"),
        link("bare", "bare"),
        dir("coding", vec![link("review", "/lib/coding/review"), link("haiku", "/lib/coding/haiku")]),
        dir(".hidden", vec![link("secret", "/lib/x/secret")]),
    ]
}

#[test]
fn installed_names_flatten_groups_and_flat_entries() {
    assert_eq!(
        installed_skill_names(&target()),
        vec!["haiku", "essay", "flat", "fetched", "old", "bare", "review", "haiku"]
    );
    assert!(installed_skill_names(&vec![]).is_empty());
}

#[test]
fn a_group_gives_its_children_and_a_skill_its_own_name() {
    let with_children = |marker: bool| {
        let mut entries = vec![plain("inner"), file(".hidden", ""), link("other-child", "/x")];
        if marker {
            entries.push(file("SKILL.md", ""));
        }
        vec![link("before", "/b"), dir("d", entries), link("after", "/a")]
    };
    assert_eq!(
        installed_skill_names(&with_children(false)),
        vec!["before", "inner", "other-child", "after"]
    );
    assert_eq!(installed_skill_names(&with_children(true)), vec!["before", "d", "after"]);
}

#[test]
fn the_group_of_a_link_is_the_parent_of_its_destination() {
    assert_eq!(parent_dir_name("/lib/coding/flat"), Some("coding".to_string()));
    assert_eq!(parent_dir_name("coding/flat"), Some("coding".to_string()));
    assert_eq!(parent_dir_name("flat"), None);
    assert_eq!(parent_dir_name("/flat"), None);
    assert_eq!(parent_dir_name(""), None);
    assert_eq!(parent_dir_name("/l/w/h/"), Some("w".to_string()));
    assert_eq!(parent_dir_name("a//b"), Some("a".to_string()));
    assert_eq!(parent_dir_name("/l/w//h//"), Some("w".to_string()));
    assert_eq!(parent_dir_name("h/"), None);
    assert_eq!(last_name_of("/l/w/h/"), Some("h".to_string()));
    assert_eq!(last_name_of("//"), None);
    assert_eq!(split_path("/l//w/h/"), vec!["l", "w", "h"]);
    assert_eq!(inferred_group(&link("x", "/lib/coding/flat").node), "coding");
    assert_eq!(inferred_group(&link("x", "flat").node), "other");
    assert_eq!(inferred_group(&plain("x").node), "other");
    assert_eq!(inferred_group(&file("x", "").node), "other");
}

#[test]
fn a_link_that_ends_in_a_separator_is_in_the_group_of_its_parent() {
    let t = vec![link("x", "/l/w/h/"), link("y", "a//b"), link("z", "/l/w/k")];
    assert_eq!(find_virtual_group_skills(&t, "w"), vec!["x", "z"]);
    assert_eq!(find_virtual_group_skills(&t, "a"), vec!["y"]);
    assert!(find_virtual_group_skills(&t, "h").is_empty());
    assert!(find_virtual_group_skills(&t, "other").is_empty());
}

#[test]
fn virtual_groups_hold_flat_entries_only() {
    let t = target();
    assert_eq!(find_virtual_group_skills(&t, "coding"), vec!["flat"]);
    assert_eq!(find_virtual_group_skills(&t, "other"), vec!["fetched", "old", "bare"]);
    assert!(find_virtual_group_skills(&t, "writing").is_empty());
    assert!(find_virtual_group_skills(&t, "x").is_empty());
}

#[test]
fn a_bare_name_is_found_flat_first_then_in_groups() {
    let t = target();
    assert_eq!(find_installed_skill(&t, "flat"), Some(at(None, "flat")));
    assert_eq!(find_installed_skill(&t, "haiku"), Some(at(Some("writing"), "haiku")));
    assert_eq!(find_installed_skill(&t, "review"), Some(at(Some("coding"), "review")));
    assert_eq!(find_installed_skill(&t, "writing"), Some(at(None, "writing")));
    assert_eq!(find_installed_skill(&t, "nothing"), None);
    assert_eq!(locate(&t, "flat"), Some(Slot { group: None, index: 2 }));
    assert_eq!(locate(&t, "haiku"), Some(Slot { group: Some(1), index: 0 }));
}

#[test]
fn a_compound_key_names_its_place() {
    let t = target();
    assert_eq!(find_installed_skill(&t, "coding/haiku"), Some(at(Some("coding"), "haiku")));
    assert_eq!(find_installed_skill(&t, "coding/essay"), None);
    assert_eq!(find_installed_skill(&t, "missing/haiku"), None);
    assert_eq!(find_installed_skill(&t, "flat/haiku"), None);
    assert_eq!(locate(&t, "coding/haiku"), Some(Slot { group: Some(6), index: 1 }));
}

#[test]
fn one_trailing_separator_is_trimmed() {
    assert_eq!(trim_separator("group/"), "group");
    assert_eq!(trim_separator("group"), "group");
    assert_eq!(trim_separator("group//"), "group/");
    assert_eq!(trim_separator(""), "");
}

#[test]
fn remote_skills_are_those_with_a_record() {
    assert_eq!(
        find_all_remote_skills(&target()),
        vec![at(Some("writing"), "essay"), at(None, "fetched")]
    );
}

#[test]
fn update_targets_tell_missing_from_not_updatable() {
    let t = target();
    assert_eq!(find_update_targets(&t, "writing"), Ok(vec![at(Some("writing"), "essay")]));
    assert_eq!(find_update_targets(&t, "writing/"), Ok(vec![at(Some("writing"), "essay")]));
    assert_eq!(find_update_targets(&t, "writing/essay"), Ok(vec![at(Some("writing"), "essay")]));
    assert_eq!(find_update_targets(&t, "essay"), Ok(vec![at(Some("writing"), "essay")]));
    assert_eq!(find_update_targets(&t, "fetched"), Ok(vec![at(None, "fetched")]));
    assert_eq!(find_update_targets(&t, "nothing"), Ok(vec![]));
    assert_eq!(find_update_targets(&t, "writing/nothing"), Ok(vec![]));
    assert_eq!(find_update_targets(&t, "flat"), Err(SkillError::NotUpdatable));
    assert_eq!(find_update_targets(&t, "old"), Err(SkillError::NotUpdatable));
    assert_eq!(find_update_targets(&t, "writing/haiku"), Err(SkillError::NotUpdatable));
    assert_eq!(find_update_targets(&t, "coding"), Err(SkillError::NotUpdatable));
}

#[test]
fn which_looks_local_then_global_then_source() {
    let local = target();
    let global = vec![link("only-global", "/lib/g/only-global"), link("flat", "/lib/g/flat")];
    let source = vec![dir("g", vec![plain("in-source")])];
    assert_eq!(which("flat", &local, &global, Some(&source)), Ok(Found::Local(at(None, "flat"))));
    assert_eq!(
        which("only-global", &local, &global, Some(&source)),
        Ok(Found::Global(at(None, "only-global")))
    );
    assert_eq!(
        which("in-source", &local, &global, Some(&source)),
        Ok(Found::Source("g".to_string()))
    );
    assert_eq!(which("in-source", &local, &global, None), Err(SkillError::NotFound));
    assert_eq!(which("nowhere", &local, &global, Some(&source)), Err(SkillError::NotFound));
}

#[test]
fn entries_are_listed_with_group_and_origin() {
    let mut out: Vec<Listed> = Vec::new();
    list_skills_in_dir(&target(), Scope::Local, &mut out);
    let names: Vec<(Option<String>, String, String)> = out
        .iter()
        .map(|l| (l.place.group.clone(), l.place.name.clone(), l.shown_group.clone()))
        .collect();
    let expect = [
        (Some("writing"), "haiku", "writing"),
        (Some("writing"), "essay", "writing"),
        (None, "flat", "coding"),
        (None, "fetched", "other"),
        (None, "old", "other"),
        (None, "bare", "other"),
        (Some("coding"), "review", "coding"),
        (Some("coding"), "haiku", "coding"),
    ];
    assert_eq!(names.len(), expect.len());
    for (got, want) in names.iter().zip(expect) {
        assert_eq!(got.0.as_deref(), want.0);
        assert_eq!(got.1, want.1);
        assert_eq!(got.2, want.2);
    }
    assert_eq!(out[0].origin, Origin::Symlinked { target: "/lib/writing/haiku".to_string() });
    assert_eq!(out[1].origin, Origin::Copied { record: "o/r/writing/essay@main".to_string() });
    assert_eq!(out[4].origin, Origin::Plain);
    assert!(out.iter().all(|l| l.scope == Scope::Local));
}

#[test]
fn a_place_in_both_targets_is_shown_with_its_local_entry() {
    let local = vec![dir("g", vec![link("a", "/l/g/a")]), link("f", "/l/x/f")];
    let global = vec![
        dir("g", vec![link("a", "/other/g/a"), link("b", "/l/g/b")]),
        link("f", "/other/y/f"),
        link("h", "/l/z/h"),
    ];
    let listed = list_installed(&local, &global);
    let shown: Vec<(Scope, Option<String>, String)> =
        listed.iter().map(|l| (l.scope, l.place.group.clone(), l.place.name.clone())).collect();
    assert_eq!(
        shown,
        vec![
            (Scope::Local, Some("g".to_string()), "a".to_string()),
            (Scope::Local, None, "f".to_string()),
            (Scope::Global, Some("g".to_string()), "b".to_string()),
            (Scope::Global, None, "h".to_string()),
        ]
    );
    assert_eq!(listed[1].shown_group, "x");
}

#[test]
fn status_is_local_before_global() {
    let local = vec!["a".to_string(), "b".to_string()];
    let global = vec!["b".to_string(), "c".to_string()];
    assert_eq!(skill_status("a", &local, &global), Status::Local);
    assert_eq!(skill_status("b", &local, &global), Status::Local);
    assert_eq!(skill_status("c", &local, &global), Status::Global);
    assert_eq!(skill_status("d", &local, &global), Status::Available);
    let source = vec![dir("g", vec![plain("a"), plain("c"), plain("d")])];
    assert_eq!(
        list(&source, &local, &global),
        vec![
            ("g".to_string(), "a".to_string(), Status::Local),
            ("g".to_string(), "c".to_string(), Status::Global),
            ("g".to_string(), "d".to_string(), Status::Available),
        ]
    );
}
