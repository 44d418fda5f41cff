use agt::command::{execute, interactive_install, Operation, SkillAction};
use agt::error::SkillError;
use agt::library::Profile;
use agt::remote::parse_spec;
use agt::selector::{
    count_installed, run_interactive_selector, run_interactive_selector_remote,
    run_no_source_selector, Answer, InteractiveSelection, Prompt, Step,
};
use agt::selector::remote_selection;
use agt::text::{trim_by, trim_text};
use agt::tree::{Entry, Node};

fn file(name: &str, content: &str) -> Entry {
    Entry { name: name.to_string(), node: Node::File { content: content.to_string() } }
}

fn dir(name: &str, entries: Vec<Entry>) -> Entry {
    Entry { name: name.to_string(), node: Node::Dir { entries } }
}

fn skill(name: &str) -> Entry {
    dir(name, vec![file("SKILL.md", "")])
}

fn library() -> Vec<Entry> {
    vec![dir("writing", vec![skill("haiku"), skill("essay")]), dir("coding", vec![skill("review")]), dir("empty", vec![])]
}

fn declared() -> Vec<Profile> {
    vec![Profile {
        name: "core".to_string(),
        description: "the core".to_string(),
        skills: vec![("writing".to_string(), "haiku".to_string())],
    }]
}

fn names(v: &[&str]) -> Vec<String> {
    v.iter().map(|s| s.to_string()).collect()
}

fn step(answers: Vec<Answer>) -> Step {
    run_interactive_selector(&library(), &declared(), &names(&["haiku"]), &names(&["review"]), &answers)
}

fn remote_step(answers: Vec<Answer>) -> Step {
    run_interactive_selector_remote(&library(), &declared(), &vec![], &vec![], &answers)
}

#[test]
fn the_first_question_offers_the_ways_to_install() {
    assert_eq!(step(vec![]), Step::Ask(Prompt::Mode { with_remote: true }));
    assert_eq!(remote_step(vec![]), Step::Ask(Prompt::Mode { with_remote: false }));
    assert_eq!(step(vec![Answer::Cancelled]), Step::Done(InteractiveSelection::Cancelled));
    assert_eq!(step(vec![Answer::Choice(3)]), Step::Fail(SkillError::Usage));
    assert_eq!(remote_step(vec![Answer::Choice(2)]), Step::Fail(SkillError::Usage));
    assert_eq!(step(vec![Answer::Text("x".to_string())]), Step::Fail(SkillError::Usage));
}

#[test]
fn a_profile_is_chosen_by_position() {
    match step(vec![Answer::Choice(0)]) {
        Step::Ask(Prompt::Profile(rows)) => {
            assert_eq!(rows.len(), 2);
            assert_eq!(rows[0].0, "all");
            assert_eq!(rows[0].2, 3);
            assert_eq!(rows[1], ("core".to_string(), "the core".to_string(), 1));
        },
        other => panic!("{:?}", other),
    }
    assert_eq!(
        step(vec![Answer::Choice(0), Answer::Choice(0)]),
        Step::Done(InteractiveSelection::Profile("all".to_string()))
    );
    assert_eq!(
        step(vec![Answer::Choice(0), Answer::Choice(1)]),
        Step::Done(InteractiveSelection::Profile("core".to_string()))
    );
    assert_eq!(step(vec![Answer::Choice(0), Answer::Choice(2)]), Step::Fail(SkillError::Usage));
    assert_eq!(
        step(vec![Answer::Choice(0), Answer::Cancelled]),
        Step::Done(InteractiveSelection::Cancelled)
    );
    assert_eq!(
        remote_step(vec![Answer::Choice(0), Answer::Choice(0)]),
        Step::Done(InteractiveSelection::Profile("core".to_string()))
    );
    assert_eq!(
        run_interactive_selector_remote(&library(), &vec![], &vec![], &vec![], &vec![Answer::Choice(0)]),
        Step::Fail(SkillError::NotFound)
    );
}

#[test]
fn skills_are_chosen_by_group() {
    assert_eq!(
        step(vec![Answer::Choice(1)]),
        Step::Ask(Prompt::Group(vec![
            ("writing".to_string(), 1, 2),
            ("coding".to_string(), 1, 1),
            ("empty".to_string(), 0, 0),
        ]))
    );
    assert_eq!(
        step(vec![Answer::Choice(1), Answer::Choice(0)]),
        Step::Ask(Prompt::Skills { group: "writing".to_string(), names: names(&["haiku", "essay"]) })
    );
    assert_eq!(
        step(vec![Answer::Choice(1), Answer::Choice(0), Answer::Choices(vec![1, 0])]),
        Step::Done(InteractiveSelection::Skills(vec![
            ("writing".to_string(), "essay".to_string()),
            ("writing".to_string(), "haiku".to_string()),
        ]))
    );
    assert_eq!(
        step(vec![Answer::Choice(1), Answer::Choice(0), Answer::Choices(vec![])]),
        Step::Done(InteractiveSelection::Cancelled)
    );
    assert_eq!(
        step(vec![Answer::Choice(1), Answer::Choice(0), Answer::Choices(vec![0, 2])]),
        Step::Fail(SkillError::Usage)
    );
    assert_eq!(step(vec![Answer::Choice(1), Answer::Choice(2)]), Step::Fail(SkillError::NotFound));
    assert_eq!(step(vec![Answer::Choice(1), Answer::Choice(3)]), Step::Fail(SkillError::Usage));
    assert_eq!(
        run_interactive_selector(&vec![], &vec![], &vec![], &vec![], &vec![Answer::Choice(1)]),
        Step::Fail(SkillError::NotFound)
    );
}

#[test]
fn a_remote_address_is_trimmed() {
    assert_eq!(step(vec![Answer::Choice(2)]), Step::Ask(Prompt::RemoteSpec));
    assert_eq!(
        step(vec![Answer::Choice(2), Answer::Text("  o/r/p \n".to_string())]),
        Step::Done(InteractiveSelection::Remote("o/r/p".to_string()))
    );
    assert_eq!(
        step(vec![Answer::Choice(2), Answer::Text("   ".to_string())]),
        Step::Done(InteractiveSelection::Cancelled)
    );
}

#[test]
fn without_a_library_the_choice_is_to_clone_or_to_fetch() {
    assert_eq!(run_no_source_selector(&vec![]), Step::Ask(Prompt::NoSource));
    assert_eq!(
        run_no_source_selector(&vec![Answer::Choice(0)]),
        Step::Done(InteractiveSelection::CloneAndInstall)
    );
    assert_eq!(run_no_source_selector(&vec![Answer::Choice(1)]), Step::Ask(Prompt::RemoteSpec));
    assert_eq!(
        run_no_source_selector(&vec![Answer::Choice(1), Answer::Text(" o/r ".to_string())]),
        Step::Done(InteractiveSelection::Remote("o/r".to_string()))
    );
    assert_eq!(
        run_no_source_selector(&vec![Answer::Cancelled]),
        Step::Done(InteractiveSelection::Cancelled)
    );
    assert_eq!(run_no_source_selector(&vec![Answer::Choice(2)]), Step::Fail(SkillError::Usage));
}

#[test]
fn a_text_is_trimmed_by_flags() {
    assert_eq!(trim_by("abcde", &vec![true, false, true, false, true]), "bcd");
    assert_eq!(trim_by("abcde", &vec![false, true, true, true, false]), "abcde");
    assert_eq!(trim_by("abc", &vec![true, true, true]), "");
    assert_eq!(trim_by("abc", &vec![true, true, false]), "c");
    assert_eq!(trim_by("abc", &vec![false, true, true]), "a");
    assert_eq!(trim_by("", &vec![]), "");
}

#[test]
fn whitespace_is_trimmed_at_both_ends() {
    assert_eq!(trim_text("  o/r/p \n"), "o/r/p");
    assert_eq!(trim_text("\t a b\u{a0}\u{3000}"), "a b");
    assert_eq!(trim_text("plain"), "plain");
    assert_eq!(trim_text(" \r\n "), "");
    assert_eq!(trim_text(""), "");
    for text in ["", " x", "x ", "\u{2003}x y\u{2028}", "é ", "_ _"] {
        assert_eq!(trim_text(text), text.trim());
    }
}

#[test]
fn a_trimmed_address_is_the_selection_unless_it_is_empty() {
    assert_eq!(remote_selection(String::new()), InteractiveSelection::Cancelled);
    assert_eq!(
        remote_selection("o/r".to_string()),
        InteractiveSelection::Remote("o/r".to_string())
    );
}

#[test]
fn installed_skills_are_counted() {
    assert_eq!(count_installed(&names(&["a", "b", "c"]), &names(&["a"]), &names(&["a", "c"])), 2);
    assert_eq!(count_installed(&vec![], &names(&["a"]), &vec![]), 0);
}

fn install(name: Option<&str>, profile: Option<&str>, all: bool, from: Option<&str>) -> SkillAction {
    SkillAction::Install {
        name: name.map(|s| s.to_string()),
        global: true,
        force: false,
        profile: profile.map(|s| s.to_string()),
        all,
        from: from.map(|s| s.to_string()),
    }
}

#[test]
fn an_install_command_comes_to_one_operation() {
    assert_eq!(
        execute(install(Some("haiku"), None, false, None), false),
        Ok(Operation::InstallSkill { name: "haiku".to_string(), global: true, force: false })
    );
    assert_eq!(
        execute(install(None, Some("core"), false, None), false),
        Ok(Operation::InstallProfile { name: "core".to_string(), global: true, force: false })
    );
    assert_eq!(
        execute(install(None, None, true, None), false),
        Ok(Operation::InstallProfile { name: "all".to_string(), global: true, force: false })
    );
    assert_eq!(
        execute(install(None, None, false, None), true),
        Ok(Operation::SelectInteractively { global: true, force: false })
    );
}

#[test]
fn an_address_without_path_is_browsed_never_installed_as_one_skill() {
    assert_eq!(
        execute(install(None, None, false, Some("owner/repo")), false),
        Ok(Operation::BrowseRemote {
            spec: parse_spec("owner/repo").unwrap(),
            global: true,
            force: false
        })
    );
    assert_eq!(
        execute(install(None, None, false, Some("owner/repo/g/s@v1")), false),
        Ok(Operation::InstallRemote {
            spec: parse_spec("owner/repo/g/s@v1").unwrap(),
            global: true,
            force: false
        })
    );
    assert_eq!(
        execute(install(None, None, false, Some("owner")), false),
        Err(SkillError::InvalidSpec)
    );
}

#[test]
fn contradicting_options_are_a_usage_error() {
    assert_eq!(execute(install(None, Some("p"), false, Some("o/r")), true), Err(SkillError::Usage));
    assert_eq!(execute(install(None, None, true, Some("o/r")), true), Err(SkillError::Usage));
    assert_eq!(execute(install(None, Some("p"), true, None), true), Err(SkillError::Usage));
    assert_eq!(execute(install(Some("n"), Some("p"), false, None), true), Err(SkillError::Usage));
    assert_eq!(execute(install(Some("n"), None, true, None), true), Err(SkillError::Usage));
    assert_eq!(execute(install(None, None, false, None), false), Err(SkillError::Usage));
}

#[test]
fn the_other_commands_carry_their_options_over() {
    assert_eq!(
        execute(SkillAction::Uninstall { name: "g/".to_string(), global: false }, false),
        Ok(Operation::Uninstall { name: "g/".to_string(), global: false })
    );
    let list = |installed, local, global, profiles| SkillAction::List { installed, local, global, profiles, json: true };
    assert_eq!(execute(list(true, true, true, true), false), Ok(Operation::ListProfiles { json: true }));
    assert_eq!(
        execute(list(true, false, false, false), false),
        Ok(Operation::ListInstalled { local: true, global: true, json: true })
    );
    assert_eq!(
        execute(list(false, false, true, false), false),
        Ok(Operation::ListInstalled { local: false, global: true, json: true })
    );
    assert_eq!(execute(list(false, false, false, false), false), Ok(Operation::ListAvailable { json: true }));
    assert_eq!(execute(SkillAction::Init, false), Ok(Operation::Init));
    assert_eq!(
        execute(SkillAction::Which { name: "x".to_string() }, false),
        Ok(Operation::Which { name: "x".to_string() })
    );
    assert_eq!(
        execute(SkillAction::Update { name: None, global: true, local: false }, false),
        Ok(Operation::Update { name: None, only_global: true, only_local: false })
    );
}

#[test]
fn a_selection_comes_to_one_operation() {
    let profile = InteractiveSelection::Profile("core".to_string());
    assert_eq!(
        interactive_install(profile.clone(), true, false, true),
        Ok(Operation::InstallProfile { name: "core".to_string(), global: false, force: true })
    );
    assert_eq!(interactive_install(profile, false, false, true), Ok(Operation::Nothing));
    let skills = vec![("g".to_string(), "s".to_string())];
    assert_eq!(
        interactive_install(InteractiveSelection::Skills(skills.clone()), true, true, false),
        Ok(Operation::InstallSkills { skills, global: true, force: false })
    );
    assert_eq!(
        interactive_install(InteractiveSelection::Remote("o/r".to_string()), false, false, false),
        Ok(Operation::BrowseRemote { spec: parse_spec("o/r").unwrap(), global: false, force: false })
    );
    assert_eq!(
        interactive_install(InteractiveSelection::Remote("bad".to_string()), true, false, false),
        Err(SkillError::InvalidSpec)
    );
    assert_eq!(
        interactive_install(InteractiveSelection::CloneAndInstall, false, true, true),
        Ok(Operation::CloneAndInstall { global: true, force: true })
    );
    assert_eq!(interactive_install(InteractiveSelection::Cancelled, true, true, true), Ok(Operation::Nothing));
}
