use agt::error::SkillError;
use agt::installed::Place;
use agt::tree::{Entry, Node};
use agt::uninstall::{remove_child, remove_virtual, split_hidden, uninstall, Removed};

fn file(name: &str, content: &str) -> Entry {
    Entry { name: name.to_string(), node: Node::File { content: content.to_string() } }
}

fn link(name: &str, target: &str) -> Entry {
    Entry { name: name.to_string(), node: Node::Link { target: target.to_string() } }
}

fn dir(name: &str, entries: Vec<Entry>) -> Entry {
    Entry { name: name.to_string(), node: Node::Dir { entries } }
}

fn names(v: &[&str]) -> Vec<String> {
    v.iter().map(|s| s.to_string()).collect()
}

fn target() -> Vec<Entry> {
    vec![
        dir("writing", vec![link("haiku", "/lib/writing/haiku"), link("essay", "/lib/writing/essay")]),
        link("flat", "/lib/coding/flat"),
        link("other-flat", "/lib/coding/other-flat"),
        link("poem", "/lib/verse/poem"),
        dir("old", vec![file("SKILL.md", "")]),
        dir("kept", vec![link("a", "/lib/kept/a"), file(".keep", "")]),
        dir("bare", vec![file(".keep", "")]),
    ]
}

#[test]
fn a_group_goes_with_all_its_members() {
    let mut t = target();
    assert_eq!(uninstall(&mut t, "writing"), Ok(Removed::Group(names(&["haiku", "essay"]))));
    assert_eq!(t, target().into_iter().skip(1).collect::<Vec<Entry>>());
}

#[test]
fn a_trailing_separator_names_the_same_group() {
    let mut t = target();
    assert_eq!(uninstall(&mut t, "writing/"), Ok(Removed::Group(names(&["haiku", "essay"]))));
    assert_eq!(t.len(), 6);
}

#[test]
fn a_group_with_hidden_entries_stays_with_them() {
    let mut t = target();
    assert_eq!(uninstall(&mut t, "kept"), Ok(Removed::Group(names(&["a"]))));
    assert_eq!(t[5], dir("kept", vec![file(".keep", "")]));
    assert_eq!(t.len(), 7);
}

#[test]
fn a_group_without_visible_members_is_not_found() {
    let mut t = target();
    assert_eq!(uninstall(&mut t, "bare"), Err(SkillError::NotFound));
    assert_eq!(t, target());
}

#[test]
fn a_virtual_group_loses_its_flat_entries_only() {
    let mut t = target();
    assert_eq!(
        uninstall(&mut t, "coding"),
        Ok(Removed::VirtualGroup(names(&["flat", "other-flat"])))
    );
    let mut expect = target();
    expect.remove(2);
    expect.remove(1);
    assert_eq!(t, expect);
    let mut t = target();
    assert_eq!(uninstall(&mut t, "other"), Ok(Removed::VirtualGroup(names(&["old"]))));
    assert_eq!(t.len(), 6);
}

#[test]
fn a_single_skill_is_removed_and_its_empty_group_with_it() {
    let mut t = target();
    assert_eq!(
        uninstall(&mut t, "haiku"),
        Ok(Removed::Skill(Place { group: Some("writing".to_string()), name: "haiku".to_string() }))
    );
    assert_eq!(t[0], dir("writing", vec![link("essay", "/lib/writing/essay")]));
    assert_eq!(
        uninstall(&mut t, "writing/essay"),
        Ok(Removed::Skill(Place { group: Some("writing".to_string()), name: "essay".to_string() }))
    );
    assert_eq!(t, target().into_iter().skip(1).collect::<Vec<Entry>>());
    assert_eq!(
        uninstall(&mut t, "poem"),
        Ok(Removed::Skill(Place { group: None, name: "poem".to_string() }))
    );
    assert_eq!(t.len(), 5);
}

#[test]
fn what_is_not_installed_is_not_found() {
    let mut t = target();
    assert_eq!(uninstall(&mut t, "nothing"), Err(SkillError::NotFound));
    assert_eq!(uninstall(&mut t, "writing/nothing"), Err(SkillError::NotFound));
    assert_eq!(t, target());
}

#[test]
fn the_parts_of_an_uninstall() {
    let (kept, gone) = split_hidden(vec![file(".a", ""), link("b", "/x"), file(".c", ""), link("d", "/y")]);
    assert_eq!(kept, vec![file(".a", ""), file(".c", "")]);
    assert_eq!(gone, names(&["b", "d"]));
    let mut t = target();
    assert_eq!(remove_virtual(&mut t, "verse"), names(&["poem"]));
    assert_eq!(t.len(), 6);
    remove_child(&mut t, 0, 0);
    assert_eq!(t[0], dir("writing", vec![link("essay", "/lib/writing/essay")]));
    remove_child(&mut t, 0, 0);
    assert_eq!(t[0], link("flat", "/lib/coding/flat"));
}
