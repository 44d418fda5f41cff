//! The interactive selector, as a function of the answers given so far.
//!
//! The selector asks nothing itself. It is handed the answers that were
//! given up to now, and says what comes next: a question to ask, the
//! selection that was made, or a failure. Whoever asks the questions calls
//! it again with one answer more, until it is done. It behaves the same
//! whether the answers come from a terminal or from a script.

use vstd::prelude::*;
use vstd::string::*;
use crate::error::SkillError;
use crate::library::{
    all_description, all_text, builtin_count, every_skill, group_names, group_skills, list_profiles,
    Profile, skill_groups, skills_in_group,
};
use crate::text::{char_len, trim_text, trimmed_text};
use crate::tree::{Entry, holds_text, pair_texts, texts};

verus! {

/// What the user chose.
#[derive(Debug, Clone, PartialEq, Eq)]
pub enum InteractiveSelection {
    /// A profile, by name.
    Profile(String),
    /// Skills, each as group and name.
    Skills(Vec<(String, String)>),
    /// A remote address, as it was typed.
    Remote(String),
    /// To clone the default library first.
    CloneAndInstall,
    /// Nothing.
    Cancelled,
}

/// One answer of the user.
#[derive(Debug, Clone, PartialEq, Eq)]
pub enum Answer {
    /// The question was dismissed.
    Cancelled,
    /// One row was chosen, by position.
    Choice(usize),
    /// Some rows were chosen, by position.
    Choices(Vec<usize>),
    /// A text was typed.
    Text(String),
}

/// A question to ask.
#[derive(Debug, Clone, PartialEq, Eq)]
pub enum Prompt {
    /// How to install: by profile, by group, or, where `with_remote` is set,
    /// from a remote address, in this order.
    Mode { with_remote: bool },
    /// Which profile: name, description and number of skills of each.
    Profile(Vec<(String, String, usize)>),
    /// Which group: name, number of installed skills and number of skills
    /// of each.
    Group(Vec<(String, usize, usize)>),
    /// Which skills of a group.
    Skills { group: String, names: Vec<String> },
    /// Which remote address.
    RemoteSpec,
    /// What to do without a library: clone the default one, or install from
    /// a remote address, in this order.
    NoSource,
}

/// What comes next.
#[derive(Debug, Clone, PartialEq, Eq)]
pub enum Step {
    Ask(Prompt),
    Done(InteractiveSelection),
    Fail(SkillError),
}

/// How many of `names` are installed, locally or globally.
pub open spec fn installed_among(
    names: Seq<Seq<char>>,
    local: Seq<Seq<char>>,
    global: Seq<Seq<char>>,
) -> nat
    decreases names.len(),
{
    if names.len() == 0 {
        0
    } else {
        installed_among(names.drop_last(), local, global) + if local.contains(names.last())
            || global.contains(names.last()) {
            1nat
        } else {
            0nat
        }
    }
}

/// The skills of `group` at the positions `picks`, in the order of the picks.
pub open spec fn picked(group: Seq<char>, names: Seq<Seq<char>>, picks: Seq<usize>) -> Seq<
    (Seq<char>, Seq<char>),
> {
    picks.map_values(|i: usize| (group, names[i as int]))
}

/// Every pick is a position of `names`.
pub open spec fn picks_valid(names: Seq<Seq<char>>, picks: Seq<usize>) -> bool {
    forall|k: int| 0 <= k < picks.len() ==> (#[trigger] picks[k]) < names.len()
}

/// The step after the question for a profile.
pub open spec fn profile_step(
    r: Step,
    source: Seq<Entry>,
    declared: Seq<Profile>,
    answers: Seq<Answer>,
    remote: bool,
) -> bool {
    let off = builtin_count(!remote);
    let count = declared.len() + off;
    if count == 0 {
        r matches Step::Fail(SkillError::NotFound)
    } else if answers.len() < 2 {
        r matches Step::Ask(Prompt::Profile(rows)) && rows@.len() == count && (!remote
            ==> rows@[0].0@ == all_text() && rows@[0].1@ == all_description() && rows@[0].2
            == every_skill(source).len()) && forall|i: int|
            0 <= i < declared.len() ==> (#[trigger] rows@[i + off]).0@ == declared[i].name@
                && rows@[i + off].1@ == declared[i].description@ && rows@[i + off].2
                == declared[i].skills@.len()
    } else {
        match answers[1] {
            Answer::Cancelled => r matches Step::Done(InteractiveSelection::Cancelled),
            Answer::Choice(i) => if i < count {
                r matches Step::Done(InteractiveSelection::Profile(name)) && name@ == (if !remote
                    && i == 0 {
                    all_text()
                } else {
                    declared[i - off].name@
                })
            } else {
                r matches Step::Fail(SkillError::Usage)
            },
            _ => r matches Step::Fail(SkillError::Usage),
        }
    }
}

/// The step after the question for a group.
pub open spec fn browse_step(
    r: Step,
    source: Seq<Entry>,
    local: Seq<Seq<char>>,
    global: Seq<Seq<char>>,
    answers: Seq<Answer>,
) -> bool {
    let groups = group_names(source);
    if groups.len() == 0 {
        r matches Step::Fail(SkillError::NotFound)
    } else if answers.len() < 2 {
        r matches Step::Ask(Prompt::Group(rows)) && rows@.len() == groups.len() && forall|i: int|
            0 <= i < groups.len() ==> (#[trigger] rows@[i]).0@ == groups[i] && rows@[i].1
                == installed_among(group_skills(source, groups[i]), local, global) && rows@[i].2
                == group_skills(source, groups[i]).len()
    } else {
        match answers[1] {
            Answer::Cancelled => r matches Step::Done(InteractiveSelection::Cancelled),
            Answer::Choice(g) => if g < groups.len() {
                let names = group_skills(source, groups[g as int]);
                if names.len() == 0 {
                    r matches Step::Fail(SkillError::NotFound)
                } else if answers.len() < 3 {
                    r matches Step::Ask(Prompt::Skills { group, names: rows }) && group@
                        == groups[g as int] && texts(rows@) == names
                } else {
                    match answers[2] {
                        Answer::Cancelled => r matches Step::Done(InteractiveSelection::Cancelled),
                        Answer::Choices(picks) => if picks@.len() == 0 {
                            r matches Step::Done(InteractiveSelection::Cancelled)
                        } else if picks_valid(names, picks@) {
                            r matches Step::Done(InteractiveSelection::Skills(chosen))
                                && pair_texts(chosen@) == picked(groups[g as int], names, picks@)
                        } else {
                            r matches Step::Fail(SkillError::Usage)
                        },
                        _ => r matches Step::Fail(SkillError::Usage),
                    }
                }
            } else {
                r matches Step::Fail(SkillError::Usage)
            },
            _ => r matches Step::Fail(SkillError::Usage),
        }
    }
}

/// The step after the question for a remote address.
pub open spec fn remote_step(r: Step, answers: Seq<Answer>) -> bool {
    if answers.len() < 2 {
        r matches Step::Ask(Prompt::RemoteSpec)
    } else {
        match answers[1] {
            Answer::Cancelled => r matches Step::Done(InteractiveSelection::Cancelled),
            Answer::Text(t) => if trimmed_text(t@).len() == 0 {
                r matches Step::Done(InteractiveSelection::Cancelled)
            } else {
                r matches Step::Done(InteractiveSelection::Remote(s)) && s@ == trimmed_text(t@)
            },
            _ => r matches Step::Fail(SkillError::Usage),
        }
    }
}

/// The step of the selector where there is no library: the first answer
/// picks between cloning the default library and a remote address.
pub open spec fn no_source_step(r: Step, answers: Seq<Answer>) -> bool {
    if answers.len() == 0 {
        r matches Step::Ask(Prompt::NoSource)
    } else {
        match answers[0] {
            Answer::Cancelled => r matches Step::Done(InteractiveSelection::Cancelled),
            Answer::Choice(m) => if m == 0 {
                r matches Step::Done(InteractiveSelection::CloneAndInstall)
            } else if m == 1 {
                remote_step(r, answers)
            } else {
                r matches Step::Fail(SkillError::Usage)
            },
            _ => r matches Step::Fail(SkillError::Usage),
        }
    }
}

/// The step of the selector over a library. Nothing is asked twice: the
/// first answer picks the way, the following ones are read along it. An
/// answer that does not fit its question, or a position that no row has,
/// fails as a usage error.
pub open spec fn selector_step(
    r: Step,
    source: Seq<Entry>,
    declared: Seq<Profile>,
    local: Seq<Seq<char>>,
    global: Seq<Seq<char>>,
    answers: Seq<Answer>,
    remote: bool,
) -> bool {
    if answers.len() == 0 {
        r matches Step::Ask(Prompt::Mode { with_remote }) && with_remote == !remote
    } else {
        match answers[0] {
            Answer::Cancelled => r matches Step::Done(InteractiveSelection::Cancelled),
            Answer::Choice(m) => if m == 0 {
                profile_step(r, source, declared, answers, remote)
            } else if m == 1 {
                browse_step(r, source, local, global, answers)
            } else if m == 2 && !remote {
                remote_step(r, answers)
            } else {
                r matches Step::Fail(SkillError::Usage)
            },
            _ => r matches Step::Fail(SkillError::Usage),
        }
    }
}

/// How many of `names` are installed, locally or globally.
pub fn count_installed(names: &Vec<String>, local: &Vec<String>, global: &Vec<String>) -> (r: usize)
    ensures
        r == installed_among(texts(names@), texts(local@), texts(global@)),
{
    let n: usize = names.len();
    let mut count: usize = 0;
    let mut i: usize = 0;
    let ghost all = texts(names@);
    while i < n
        invariant
            n == names@.len(),
            all == texts(names@),
            i <= n,
            count <= i,
            count == installed_among(all.subrange(0, i as int), texts(local@), texts(global@)),
        decreases n - i,
    {
        proof {
            assert(all.subrange(0, i + 1).drop_last() =~= all.subrange(0, i as int));
            assert(all.subrange(0, i + 1).last() == names@[i as int]@);
        }
        if holds_text(local, names[i].as_str()) || holds_text(global, names[i].as_str()) {
            count += 1;
        }
        i += 1;
    }
    assert(all.subrange(0, n as int) =~= all);
    count
}

/// Whether every pick is a position below `m`.
fn picks_in_range(picks: &Vec<usize>, m: usize) -> (r: bool)
    ensures
        r == forall|k: int| 0 <= k < picks@.len() ==> (#[trigger] picks@[k]) < m,
{
    let p: usize = picks.len();
    let mut k: usize = 0;
    while k < p
        invariant
            p == picks@.len(),
            k <= p,
            forall|j: int| 0 <= j < k ==> (#[trigger] picks@[j]) < m,
        decreases p - k,
    {
        if picks[k] >= m {
            return false;
        }
        k += 1;
    }
    true
}

/// The way by profile.
fn select_profile(source: &Vec<Entry>, declared: &Vec<Profile>, answers: &Vec<Answer>, remote: bool) -> (r:
    Step)
    ensures
        profile_step(r, source@, declared@, answers@, remote),
{
    let mut profiles: Vec<(String, String, usize)> = list_profiles(source, declared, !remote);
    if profiles.len() == 0 {
        return Step::Fail(SkillError::NotFound);
    }
    if answers.len() < 2 {
        return Step::Ask(Prompt::Profile(profiles));
    }
    match &answers[1] {
        Answer::Cancelled => Step::Done(InteractiveSelection::Cancelled),
        Answer::Choice(i) => {
            if *i < profiles.len() {
                proof {
                    let off = builtin_count(!remote);
                    if *i >= off {
                        assert(profiles@[(*i - off) + off].0@ == declared@[*i - off].name@);
                    }
                }
                let (name, _, _) = profiles.swap_remove(*i);
                Step::Done(InteractiveSelection::Profile(name))
            } else {
                Step::Fail(SkillError::Usage)
            }
        },
        _ => Step::Fail(SkillError::Usage),
    }
}

/// The way by group.
fn browse_by_group(
    source: &Vec<Entry>,
    local: &Vec<String>,
    global: &Vec<String>,
    answers: &Vec<Answer>,
) -> (r: Step)
    ensures
        browse_step(r, source@, texts(local@), texts(global@), answers@),
{
    let mut groups: Vec<String> = skill_groups(source);
    let n: usize = groups.len();
    assert(texts(groups@).len() == n);
    if n == 0 {
        return Step::Fail(SkillError::NotFound);
    }
    if answers.len() < 2 {
        let mut rows: Vec<(String, usize, usize)> = Vec::new();
        let mut i: usize = 0;
        while i < n
            invariant
                n == groups@.len(),
                texts(groups@) == group_names(source@),
                i <= n,
                rows@.len() == i,
                forall|j: int|
                    0 <= j < i ==> (#[trigger] rows@[j]).0@ == group_names(source@)[j] && rows@[j].1
                        == installed_among(
                        group_skills(source@, group_names(source@)[j]),
                        texts(local@),
                        texts(global@),
                    ) && rows@[j].2 == group_skills(source@, group_names(source@)[j]).len(),
            decreases n - i,
        {
            assert(texts(groups@)[i as int] == groups@[i as int]@);
            let names: Vec<String> = skills_in_group(source, groups[i].as_str());
            assert(texts(names@).len() == names@.len());
            let hit: usize = count_installed(&names, local, global);
            rows.push((groups[i].clone(), hit, names.len()));
            i += 1;
        }
        return Step::Ask(Prompt::Group(rows));
    }
    match &answers[1] {
        Answer::Cancelled => Step::Done(InteractiveSelection::Cancelled),
        Answer::Choice(g) => {
            if *g >= n {
                return Step::Fail(SkillError::Usage);
            }
            assert(texts(groups@)[*g as int] == groups@[*g as int]@);
            let names: Vec<String> = skills_in_group(source, groups[*g].as_str());
            let m: usize = names.len();
            assert(texts(names@).len() == m);
            if m == 0 {
                return Step::Fail(SkillError::NotFound);
            }
            if answers.len() < 3 {
                let group: String = groups.swap_remove(*g);
                return Step::Ask(Prompt::Skills { group, names });
            }
            match &answers[2] {
                Answer::Cancelled => Step::Done(InteractiveSelection::Cancelled),
                Answer::Choices(picks) => {
                    let p: usize = picks.len();
                    if p == 0 {
                        return Step::Done(InteractiveSelection::Cancelled);
                    }
                    let ghost gname = groups@[*g as int]@;
                    let ghost all = texts(names@);
                    if !picks_in_range(picks, m) {
                        return Step::Fail(SkillError::Usage);
                    }
                    let mut chosen: Vec<(String, String)> = Vec::new();
                    let mut k: usize = 0;
                    while k < p
                        invariant
                            p == picks@.len(),
                            m == names@.len(),
                            all == texts(names@),
                            *g < groups@.len(),
                            gname == groups@[*g as int]@,
                            k <= p,
                            chosen@.len() == k,
                            forall|j: int| 0 <= j < p ==> (#[trigger] picks@[j]) < m,
                            forall|j: int|
                                0 <= j < k ==> (#[trigger] chosen@[j]).0@ == gname && chosen@[j].1@
                                    == all[picks@[j] as int],
                        decreases p - k,
                    {
                        let at: usize = picks[k];
                        assert(all[at as int] == names@[at as int]@);
                        chosen.push((groups[*g].clone(), names[at].clone()));
                        k += 1;
                    }
                    assert(picks_valid(all, picks@));
                    assert(pair_texts(chosen@) =~= picked(gname, all, picks@));
                    Step::Done(InteractiveSelection::Skills(chosen))
                },
                _ => Step::Fail(SkillError::Usage),
            }
        },
        _ => Step::Fail(SkillError::Usage),
    }
}

/// What a typed remote address comes to, once it is trimmed: nothing where
/// it is empty, else the address.
pub fn remote_selection(trimmed: String) -> (r: InteractiveSelection)
    ensures
        r == (if trimmed@.len() == 0 {
            InteractiveSelection::Cancelled
        } else {
            InteractiveSelection::Remote(trimmed)
        }),
{
    if char_len(trimmed.as_str()) == 0 {
        InteractiveSelection::Cancelled
    } else {
        InteractiveSelection::Remote(trimmed)
    }
}

/// The way by remote address.
fn prompt_remote(answers: &Vec<Answer>) -> (r: Step)
    ensures
        remote_step(r, answers@),
{
    if answers.len() < 2 {
        return Step::Ask(Prompt::RemoteSpec);
    }
    match &answers[1] {
        Answer::Cancelled => Step::Done(InteractiveSelection::Cancelled),
        Answer::Text(t) => {
            Step::Done(remote_selection(trim_text(t.as_str())))
        },
        _ => Step::Fail(SkillError::Usage),
    }
}

/// The selector; `remote` leaves out the built-in profile and the remote
/// address.
fn run_interactive_selector_inner(
    source: &Vec<Entry>,
    declared: &Vec<Profile>,
    local_installed: &Vec<String>,
    global_installed: &Vec<String>,
    answers: &Vec<Answer>,
    remote: bool,
) -> (r: Step)
    ensures
        selector_step(
            r,
            source@,
            declared@,
            texts(local_installed@),
            texts(global_installed@),
            answers@,
            remote,
        ),
{
    if answers.len() == 0 {
        return Step::Ask(Prompt::Mode { with_remote: !remote });
    }
    match &answers[0] {
        Answer::Cancelled => Step::Done(InteractiveSelection::Cancelled),
        Answer::Choice(m) => {
            if *m == 0 {
                select_profile(source, declared, answers, remote)
            } else if *m == 1 {
                browse_by_group(source, local_installed, global_installed, answers)
            } else if *m == 2 && !remote {
                prompt_remote(answers)
            } else {
                Step::Fail(SkillError::Usage)
            }
        },
        _ => Step::Fail(SkillError::Usage),
    }
}

/// The selector where no library is found.
pub fn run_no_source_selector(answers: &Vec<Answer>) -> (r: Step)
    ensures
        no_source_step(r, answers@),
{
    if answers.len() == 0 {
        return Step::Ask(Prompt::NoSource);
    }
    match &answers[0] {
        Answer::Cancelled => Step::Done(InteractiveSelection::Cancelled),
        Answer::Choice(m) => {
            if *m == 0 {
                Step::Done(InteractiveSelection::CloneAndInstall)
            } else if *m == 1 {
                prompt_remote(answers)
            } else {
                Step::Fail(SkillError::Usage)
            }
        },
        _ => Step::Fail(SkillError::Usage),
    }
}

/// The selector over a local library: by profile, the built-in one among
/// them, by group, or from a remote address.
pub fn run_interactive_selector(
    source: &Vec<Entry>,
    declared: &Vec<Profile>,
    local_installed: &Vec<String>,
    global_installed: &Vec<String>,
    answers: &Vec<Answer>,
) -> (r: Step)
    ensures
        selector_step(
            r,
            source@,
            declared@,
            texts(local_installed@),
            texts(global_installed@),
            answers@,
            false,
        ),
{
    run_interactive_selector_inner(
        source,
        declared,
        local_installed,
        global_installed,
        answers,
        false,
    )
}

/// The selector over a repository that was fetched: by declared profile or
/// by group. The built-in profile and the remote address are not offered.
pub fn run_interactive_selector_remote(
    source: &Vec<Entry>,
    declared: &Vec<Profile>,
    local_installed: &Vec<String>,
    global_installed: &Vec<String>,
    answers: &Vec<Answer>,
) -> (r: Step)
    ensures
        selector_step(
            r,
            source@,
            declared@,
            texts(local_installed@),
            texts(global_installed@),
            answers@,
            true,
        ),
{
    run_interactive_selector_inner(
        source,
        declared,
        local_installed,
        global_installed,
        answers,
        true,
    )
}

} // verus!
