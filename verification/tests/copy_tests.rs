use agt::copy::{
    copy_at, copy_dir_with_strategy, copy_file_with_strategy, find_node, run_manifest_setup,
    run_rule, Payload,
};
use agt::paths::split_path;
use agt::error::SkillError;
use agt::manifest::{Manifest, Setup, SetupCopy};
use agt::reconcile::copy_node;
use agt::tree::{Entry, Node};

fn file(name: &str, content: &str) -> Entry {
    Entry { name: name.to_string(), node: Node::File { content: content.to_string() } }
}

fn link(name: &str, target: &str) -> Entry {
    Entry { name: name.to_string(), node: Node::Link { target: target.to_string() } }
}

fn dir(name: &str, entries: Vec<Entry>) -> Entry {
    Entry { name: name.to_string(), node: Node::Dir { entries } }
}

fn rule(from: &str, to: &str, strategy: &str) -> SetupCopy {
    SetupCopy { from: from.to_string(), to: to.to_string(), strategy: strategy.to_string() }
}

fn manifest(rules: Vec<SetupCopy>) -> Manifest {
    Manifest { setup: Setup { copy: rules } }
}

fn same(es: &Vec<Entry>) -> Vec<Entry> {
    match copy_node(&Node::Dir { entries: es.iter().map(|e| Entry { name: e.name.clone(), node: copy_node(&e.node) }).collect() }) {
        Node::Dir { entries } => entries,
        _ => unreachable!(),
    }
}

fn repo() -> Vec<Entry> {
    vec![
        dir(
            "static",
            vec![
                file("a.txt", "A"),
                dir("sub", vec![file("b.txt", "B"), link("l", "/x")]),
                link("skipped", "/elsewhere"),
            ],
        ),
        file("single.txt", "S"),
        link("linked", "/y"),
    ]
}

#[test]
fn a_path_is_split_at_its_separators() {
    assert_eq!(split_path("a/b/c"), vec!["a", "b", "c"]);
    assert_eq!(split_path("/a//b/"), vec!["a", "b"]);
    assert_eq!(split_path("a"), vec!["a"]);
    assert!(split_path("").is_empty());
    assert!(split_path("///").is_empty());
}

#[test]
fn a_node_is_found_by_its_path() {
    let r = repo();
    let path = split_path("static/sub/b.txt");
    assert_eq!(find_node(&r, &path, 0), Some(&file("b.txt", "B").node));
    assert_eq!(find_node(&r, &split_path("static/nothing"), 0), None);
    assert_eq!(find_node(&r, &split_path("single.txt/x"), 0), None);
    assert_eq!(find_node(&r, &split_path("single.txt"), 0), Some(&file("single.txt", "S").node));
}

#[test]
fn merge_copies_only_what_is_missing() {
    let mut dest = vec![file("a.txt", "mine")];
    assert_eq!(copy_file_with_strategy("a.txt", "A", &mut dest, 0, false), (0, true));
    assert_eq!(copy_file_with_strategy("b.txt", "B", &mut dest, 0, false), (1, true));
    assert_eq!(dest, vec![file("a.txt", "mine"), file("b.txt", "B")]);
}

#[test]
fn replace_overwrites_a_file_and_fails_on_a_directory() {
    let mut dest = vec![file("a.txt", "mine"), dir("d", vec![])];
    assert_eq!(copy_file_with_strategy("a.txt", "A", &mut dest, 3, true), (4, true));
    assert_eq!(copy_file_with_strategy("d", "A", &mut dest, 4, true), (4, false));
    assert_eq!(dest, vec![file("a.txt", "A"), dir("d", vec![])]);
    assert_eq!(copy_file_with_strategy("x", "A", &mut dest, usize::MAX, true), (usize::MAX, true));
}

#[test]
fn a_directory_is_copied_without_its_links() {
    let mut dest: Vec<Entry> = Vec::new();
    let source = match &repo()[0].node {
        Node::Dir { entries } => same(entries),
        _ => unreachable!(),
    };
    assert_eq!(copy_dir_with_strategy(&source, &mut dest, 0, false), (2, true));
    assert_eq!(dest, vec![file("a.txt", "A"), dir("sub", vec![file("b.txt", "B")])]);
}

#[test]
fn a_file_in_the_way_of_a_directory_is_a_failure() {
    let mut dest = vec![file("sub", "")];
    let source = vec![file("a.txt", "A"), dir("sub", vec![file("b.txt", "B")]), file("z", "Z")];
    assert_eq!(copy_dir_with_strategy(&source, &mut dest, 0, false), (1, false));
    assert_eq!(dest, vec![file("sub", ""), file("a.txt", "A")]);
}

#[test]
fn merge_run_twice_leaves_what_the_first_run_left() {
    let m = manifest(vec![rule("static", "~/.agents", "merge")]);
    let mut home = vec![dir(".agents", vec![file("a.txt", "mine")])];
    assert_eq!(run_manifest_setup(&repo(), &m, &mut home), Ok(1));
    let first = same(&home);
    assert_eq!(
        first,
        vec![dir(".agents", vec![file("a.txt", "mine"), dir("sub", vec![file("b.txt", "B")])])]
    );
    assert_eq!(run_manifest_setup(&repo(), &m, &mut home), Ok(0));
    assert_eq!(home, first);
}

#[test]
fn replace_overwrites_modified_files() {
    let merge = manifest(vec![rule("static", "~/.agents", "merge")]);
    let replace = manifest(vec![rule("static", "~/.agents", "replace")]);
    let mut home: Vec<Entry> = Vec::new();
    assert_eq!(run_manifest_setup(&repo(), &merge, &mut home), Ok(2));
    home = vec![dir(".agents", vec![file("a.txt", "changed"), dir("sub", vec![file("b.txt", "changed")])])];
    assert_eq!(run_manifest_setup(&repo(), &merge, &mut home), Ok(0));
    assert_eq!(run_manifest_setup(&repo(), &replace, &mut home), Ok(2));
    assert_eq!(home, vec![dir(".agents", vec![file("a.txt", "A"), dir("sub", vec![file("b.txt", "B")])])]);
}

#[test]
fn replace_makes_the_destination_mirror_the_source() {
    let replace = manifest(vec![rule("static", "~/.agents", "replace")]);
    let mut home = vec![
        file("keep", "mine"),
        dir(
            ".agents",
            vec![
                file("own.txt", "mine"),
                file("a.txt", "changed"),
                dir("sub", vec![file("b.txt", "changed"), link("l", "/mine"), file("c.txt", "mine")]),
            ],
        ),
    ];
    assert_eq!(run_manifest_setup(&repo(), &replace, &mut home), Ok(2));
    assert_eq!(
        home,
        vec![
            file("keep", "mine"),
            dir(
                ".agents",
                vec![
                    file("own.txt", "mine"),
                    file("a.txt", "A"),
                    dir("sub", vec![file("b.txt", "B"), link("l", "/mine"), file("c.txt", "mine")]),
                ],
            ),
        ]
    );
}

#[test]
fn an_unsafe_rule_rejects_the_manifest_and_nothing_is_copied() {
    for bad in [rule("../etc", "~/.agents", "merge"), rule("static", "/tmp/x", "merge")] {
        let m = manifest(vec![rule("static", "~/.agents", "merge"), bad]);
        let mut home = vec![file("keep", "")];
        assert_eq!(run_manifest_setup(&repo(), &m, &mut home), Err(SkillError::ValidationError));
        assert_eq!(home, vec![file("keep", "")]);
    }
}

#[test]
fn a_destination_that_is_a_link_is_never_touched() {
    let m = manifest(vec![rule("static", "~/.agents", "replace"), rule("single.txt", "~/s.txt", "replace")]);
    let mut home = vec![link(".agents", "/managed"), link("s.txt", "/managed/s")];
    assert_eq!(run_manifest_setup(&repo(), &m, &mut home), Ok(0));
    assert_eq!(home, vec![link(".agents", "/managed"), link("s.txt", "/managed/s")]);
}

#[test]
fn a_missing_source_and_an_empty_manifest_copy_nothing() {
    let mut home: Vec<Entry> = Vec::new();
    assert_eq!(run_manifest_setup(&repo(), &Manifest::default(), &mut home), Ok(0));
    let m = manifest(vec![rule("nothing", "~/x", "merge"), rule("linked", "~/a/b", "merge")]);
    assert_eq!(run_manifest_setup(&repo(), &m, &mut home), Ok(0));
    assert!(home.is_empty());
}

#[test]
fn a_file_rule_creates_the_directories_on_its_way() {
    let m = manifest(vec![rule("single.txt", "~/a/b/s.txt", "merge"), rule("static/sub", "~", "merge")]);
    let mut home: Vec<Entry> = Vec::new();
    assert_eq!(run_manifest_setup(&repo(), &m, &mut home), Ok(2));
    assert_eq!(
        home,
        vec![dir("a", vec![dir("b", vec![file("s.txt", "S")])]), file("b.txt", "B")]
    );
    assert_eq!(run_rule(&repo(), &rule("single.txt", "~", "merge"), &mut home, 0), (0, true));
    assert_eq!(run_rule(&repo(), &rule("single.txt", "~", "replace"), &mut home, 0), (0, false));
}

#[test]
fn a_failure_ends_the_run_and_keeps_what_was_copied() {
    let m = manifest(vec![
        rule("single.txt", "~/one.txt", "merge"),
        rule("static", "~/one.txt/deeper", "merge"),
        rule("single.txt", "~/two.txt", "merge"),
    ]);
    let mut home: Vec<Entry> = Vec::new();
    assert_eq!(run_manifest_setup(&repo(), &m, &mut home), Err(SkillError::IoFailure));
    assert_eq!(home, vec![file("one.txt", "S")]);
}

#[test]
fn a_payload_is_copied_to_a_path() {
    let mut dest: Vec<Entry> = Vec::new();
    let path = split_path("x/y");
    assert_eq!(copy_at(&mut dest, &path, 0, &Payload::File("F"), 0, false), (1, true));
    assert_eq!(dest, vec![dir("x", vec![file("y", "F")])]);
    let inner = vec![file("z", "Z")];
    assert_eq!(copy_at(&mut dest, &path, 2, &Payload::Dir(&inner), 1, false), (2, true));
    assert_eq!(dest, vec![dir("x", vec![file("y", "F")]), file("z", "Z")]);
}
