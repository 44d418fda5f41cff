use agt::error::SkillError;
use agt::installed::{locate, Place, Slot};
use agt::remote::parse_spec;
use agt::tree::{Entry, Node};
use agt::update::{apply_update, read_metadata, record_update, update, Scope, UpdateTally};

fn file(name: &str, content: &str) -> Entry {
    Entry { name: name.to_string(), node: Node::File { content: content.to_string() } }
}

fn link(name: &str, target: &str) -> Entry {
    Entry { name: name.to_string(), node: Node::Link { target: target.to_string() } }
}

fn dir(name: &str, entries: Vec<Entry>) -> Entry {
    Entry { name: name.to_string(), node: Node::Dir { entries } }
}

fn copied(name: &str, record: &str) -> Entry {
    dir(name, vec![file("SKILL.md", "v1"), file(".remote-source", record)])
}

fn at(group: Option<&str>, name: &str) -> Place {
    Place { group: group.map(|g| g.to_string()), name: name.to_string() }
}

fn local() -> Vec<Entry> {
    vec![
        dir("writing", vec![link("haiku", "/lib/writing/haiku"), copied("essay", "o/r/writing/essay@v1")]),
        copied("solo", "o/r/solo"),
    ]
}

fn global() -> Vec<Entry> {
    vec![dir("coding", vec![copied("review", "o/r/coding/review@v2")]), link("flat", "/lib/x/flat")]
}

#[test]
fn without_a_name_every_remote_skill_is_a_target() {
    assert_eq!(
        update(None, &local(), &global(), false, false),
        Ok(vec![
            (Scope::Local, at(Some("writing"), "essay")),
            (Scope::Local, at(None, "solo")),
            (Scope::Global, at(Some("coding"), "review")),
        ])
    );
    assert_eq!(
        update(None, &local(), &global(), true, false),
        Ok(vec![(Scope::Global, at(Some("coding"), "review"))])
    );
    assert_eq!(update(None, &local(), &global(), false, true).unwrap().len(), 2);
    assert_eq!(update(None, &local(), &global(), true, true), Ok(vec![]));
    assert_eq!(update(None, &vec![], &vec![link("a", "/x")], false, false), Ok(vec![]));
}

#[test]
fn a_name_stands_for_a_skill_or_a_group() {
    assert_eq!(
        update(Some("review"), &local(), &global(), false, false),
        Ok(vec![(Scope::Global, at(Some("coding"), "review"))])
    );
    assert_eq!(
        update(Some("writing/"), &local(), &global(), false, false),
        Ok(vec![(Scope::Local, at(Some("writing"), "essay"))])
    );
}

#[test]
fn a_name_that_no_scope_has_is_not_found() {
    assert_eq!(update(Some("nothing"), &local(), &global(), false, false), Err(SkillError::NotFound));
    assert_eq!(update(Some("review"), &local(), &global(), false, true), Err(SkillError::NotFound));
}

#[test]
fn a_name_that_is_installed_but_not_remote_is_not_updatable() {
    assert_eq!(update(Some("haiku"), &local(), &global(), false, false), Err(SkillError::NotUpdatable));
    assert_eq!(update(Some("flat"), &local(), &global(), false, false), Err(SkillError::NotUpdatable));
}

#[test]
fn the_record_is_read_back_as_an_address() {
    let l = local();
    assert_eq!(read_metadata(&l[1].node), Ok(parse_spec("o/r/solo@main").unwrap()));
    assert_eq!(read_metadata(&link("a", "/x").node), Err(SkillError::RemoteFailure));
    assert_eq!(read_metadata(&dir("a", vec![]).node), Err(SkillError::RemoteFailure));
    assert_eq!(read_metadata(&copied("a", "garbage").node), Err(SkillError::RemoteFailure));
    assert_eq!(
        read_metadata(&dir("a", vec![dir(".remote-source", vec![])]).node),
        Err(SkillError::RemoteFailure)
    );
}

#[test]
fn an_update_replaces_the_entry_and_rewrites_the_record() {
    let mut l = local();
    let slot = locate(&l, "essay").unwrap();
    assert_eq!(slot, Slot { group: Some(0), index: 1 });
    let fetched = dir("essay", vec![file("SKILL.md", "v2"), file("new.txt", "")]).node;
    let spec = parse_spec("o/r/writing/essay@v1").unwrap();
    assert_eq!(apply_update(&mut l, slot, &fetched, &spec), Ok(()));
    assert_eq!(
        l[0],
        dir(
            "writing",
            vec![
                link("haiku", "/lib/writing/haiku"),
                dir(
                    "essay",
                    vec![
                        file("SKILL.md", "v2"),
                        file("new.txt", ""),
                        file(".remote-source", "o/r/writing/essay@v1"),
                    ],
                ),
            ],
        )
    );
    assert_eq!(l[1], local().remove(1));
    let flat = locate(&l, "solo").unwrap();
    assert_eq!(apply_update(&mut l, flat, &fetched, &parse_spec("o/r/solo").unwrap()), Ok(()));
    assert_eq!(l[1].name, "solo");
    assert_eq!(read_metadata(&l[1].node), Ok(parse_spec("o/r/solo").unwrap()));
}

#[test]
fn each_item_is_counted_once() {
    let start = UpdateTally { updated: 0, failed: 0 };
    let one = record_update(start, &Ok(()));
    assert_eq!(one, UpdateTally { updated: 1, failed: 0 });
    let two = record_update(one, &Err(SkillError::RemoteFailure));
    assert_eq!(two, UpdateTally { updated: 1, failed: 1 });
    assert_eq!(record_update(two, &Ok(())), UpdateTally { updated: 2, failed: 1 });
}

#[test]
fn an_upstream_that_is_no_skill_any_more_fails_the_item() {
    let mut l = local();
    let slot = locate(&l, "essay").unwrap();
    let fetched = dir("essay", vec![file("README.md", "")]).node;
    let spec = parse_spec("o/r/writing/essay@v1").unwrap();
    assert_eq!(apply_update(&mut l, slot, &fetched, &spec), Err(SkillError::RemoteFailure));
    assert_eq!(l, local());
}
