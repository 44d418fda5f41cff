//! Commands and what they come to.
//!
//! A command is checked and turned into the one operation that is to be
//! carried out. Nothing is read or written here.

use vstd::prelude::*;
use vstd::string::*;
use crate::error::SkillError;
use crate::library::all_text;
use crate::remote::{addresses_repository, is_repo_level, parse_spec, RemoteSpec, spec_parse};
use crate::selector::InteractiveSelection;
use crate::text::owned;

verus! {

/// A command on skills, as the user gave it.
#[derive(Debug, Clone, PartialEq, Eq)]
pub enum SkillAction {
    /// Install a skill, a profile, every skill, or from a remote address.
    Install {
        name: Option<String>,
        global: bool,
        force: bool,
        profile: Option<String>,
        all: bool,
        from: Option<String>,
    },
    /// Uninstall a skill or a group.
    Uninstall { name: String, global: bool },
    /// List available and installed skills.
    List { installed: bool, local: bool, global: bool, profiles: bool, json: bool },
    /// Create the skill directory of the current project.
    Init,
    /// Show the path of a skill.
    Which { name: String },
    /// Update skills that were installed from a remote origin.
    Update { name: Option<String>, global: bool, local: bool },
}

/// The one operation that a command comes to.
#[derive(Debug, Clone, PartialEq, Eq)]
pub enum Operation {
    /// Fetch one skill and install it.
    InstallRemote { spec: RemoteSpec, global: bool, force: bool },
    /// Fetch a whole repository and install from what it holds.
    BrowseRemote { spec: RemoteSpec, global: bool, force: bool },
    /// Install a profile of the local library.
    InstallProfile { name: String, global: bool, force: bool },
    /// Install these skills of the local library.
    InstallSkills { skills: Vec<(String, String)>, global: bool, force: bool },
    /// Install one skill of the local library.
    InstallSkill { name: String, global: bool, force: bool },
    /// Ask the user what to install.
    SelectInteractively { global: bool, force: bool },
    /// Clone the default library, then ask the user what to install.
    CloneAndInstall { global: bool, force: bool },
    /// Uninstall what the name stands for.
    Uninstall { name: String, global: bool },
    /// List the profiles.
    ListProfiles { json: bool },
    /// List what is installed in the scopes that are set.
    ListInstalled { local: bool, global: bool, json: bool },
    /// List every skill of the library with its status.
    ListAvailable { json: bool },
    /// Create the skill directory of the current project.
    Init,
    /// Show the path of a skill.
    Which { name: String },
    /// Update remote skills.
    Update { name: Option<String>, only_global: bool, only_local: bool },
    /// Do nothing.
    Nothing,
}

/// What an install command comes to.
///
/// A remote address excludes a profile and `all`; `all` excludes a profile;
/// a profile, or `all`, excludes a name. An address without a path stands
/// for a repository to browse, never for one skill. Without a name, a
/// profile or an address, the user is asked, which takes a terminal.
pub open spec fn install_result(
    name: Option<String>,
    global: bool,
    force: bool,
    profile: Option<String>,
    all: bool,
    from: Option<String>,
    is_terminal: bool,
    r: Result<Operation, SkillError>,
) -> bool {
    if from is Some {
        if profile is Some || all {
            r matches Err(SkillError::Usage)
        } else {
            match spec_parse(from.unwrap()@) {
                None => r matches Err(SkillError::InvalidSpec),
                Some(v) => if is_repo_level(v) {
                    r matches Ok(Operation::BrowseRemote { spec, global: g, force: f }) && spec@
                        == v && g == global && f == force
                } else {
                    r matches Ok(Operation::InstallRemote { spec, global: g, force: f }) && spec@
                        == v && g == global && f == force
                },
            }
        }
    } else if all {
        if profile is Some || name is Some {
            r matches Err(SkillError::Usage)
        } else {
            r matches Ok(Operation::InstallProfile { name: n, global: g, force: f }) && n@
                == all_text() && g == global && f == force
        }
    } else if profile is Some {
        if name is Some {
            r matches Err(SkillError::Usage)
        } else {
            r matches Ok(Operation::InstallProfile { name: n, global: g, force: f }) && n
                == profile.unwrap() && g == global && f == force
        }
    } else if name is None {
        if is_terminal {
            r matches Ok(Operation::SelectInteractively { global: g, force: f }) && g == global
                && f == force
        } else {
            r matches Err(SkillError::Usage)
        }
    } else {
        r matches Ok(Operation::InstallSkill { name: n, global: g, force: f }) && n
            == name.unwrap() && g == global && f == force
    }
}

/// What a command comes to.
pub open spec fn execute_result(
    action: SkillAction,
    is_terminal: bool,
    r: Result<Operation, SkillError>,
) -> bool {
    match action {
        SkillAction::Install { name, global, force, profile, all, from } => install_result(
            name,
            global,
            force,
            profile,
            all,
            from,
            is_terminal,
            r,
        ),
        SkillAction::Uninstall { name, global } => r matches Ok(
            Operation::Uninstall { name: n, global: g },
        ) && n == name && g == global,
        SkillAction::List { installed, local, global, profiles, json } => if profiles {
            r matches Ok(Operation::ListProfiles { json: j }) && j == json
        } else if installed || local || global {
            r matches Ok(Operation::ListInstalled { local: l, global: g, json: j }) && l == (
            installed || local) && g == (installed || global) && j == json
        } else {
            r matches Ok(Operation::ListAvailable { json: j }) && j == json
        },
        SkillAction::Init => r matches Ok(Operation::Init),
        SkillAction::Which { name } => r matches Ok(Operation::Which { name: n }) && n == name,
        SkillAction::Update { name, global, local } => r matches Ok(
            Operation::Update { name: n, only_global: g, only_local: l },
        ) && n == name && g == global && l == local,
    }
}

/// What a selection of the user comes to. A profile and a list of skills
/// are installed only where the user confirmed them.
pub open spec fn selection_result(
    selection: InteractiveSelection,
    confirmed: bool,
    global: bool,
    force: bool,
    r: Result<Operation, SkillError>,
) -> bool {
    match selection {
        InteractiveSelection::Profile(name) => if confirmed {
            r matches Ok(Operation::InstallProfile { name: n, global: g, force: f }) && n == name
                && g == global && f == force
        } else {
            r matches Ok(Operation::Nothing)
        },
        InteractiveSelection::Skills(skills) => if confirmed {
            r matches Ok(Operation::InstallSkills { skills: s, global: g, force: f }) && s
                == skills && g == global && f == force
        } else {
            r matches Ok(Operation::Nothing)
        },
        InteractiveSelection::Remote(text) => install_result(
            None,
            global,
            force,
            None,
            false,
            Some(text),
            true,
            r,
        ),
        InteractiveSelection::CloneAndInstall => r matches Ok(
            Operation::CloneAndInstall { global: g, force: f },
        ) && g == global && f == force,
        InteractiveSelection::Cancelled => r matches Ok(Operation::Nothing),
    }
}

/// Checks an install command and says what it comes to.
fn install(
    name: Option<String>,
    global: bool,
    force: bool,
    profile: Option<String>,
    all: bool,
    from: Option<String>,
    is_terminal: bool,
) -> (r: Result<Operation, SkillError>)
    ensures
        install_result(name, global, force, profile, all, from, is_terminal, r),
{
    proof {
        reveal_strlit("all");
        assert("all"@ =~= all_text());
    }
    match from {
        Some(text) => {
            if profile.is_some() || all {
                return Err(SkillError::Usage);
            }
            match parse_spec(text.as_str()) {
                Err(e) => Err(e),
                Ok(spec) => {
                    if addresses_repository(&spec) {
                        Ok(Operation::BrowseRemote { spec, global, force })
                    } else {
                        Ok(Operation::InstallRemote { spec, global, force })
                    }
                },
            }
        },
        None => {
            if all {
                if profile.is_some() || name.is_some() {
                    return Err(SkillError::Usage);
                }
                return Ok(Operation::InstallProfile { name: owned("all"), global, force });
            }
            match profile {
                Some(p) => {
                    if name.is_some() {
                        return Err(SkillError::Usage);
                    }
                    Ok(Operation::InstallProfile { name: p, global, force })
                },
                None => match name {
                    Some(n) => Ok(Operation::InstallSkill { name: n, global, force }),
                    None => {
                        if is_terminal {
                            Ok(Operation::SelectInteractively { global, force })
                        } else {
                            Err(SkillError::Usage)
                        }
                    },
                },
            }
        },
    }
}

/// Checks a command and says what it comes to: what `execute_result` says.
/// `is_terminal` tells whether the user can be asked.
pub fn execute(action: SkillAction, is_terminal: bool) -> (r: Result<Operation, SkillError>)
    ensures
        execute_result(action, is_terminal, r),
{
    match action {
        SkillAction::Install { name, global, force, profile, all, from } => install(
            name,
            global,
            force,
            profile,
            all,
            from,
            is_terminal,
        ),
        SkillAction::Uninstall { name, global } => Ok(Operation::Uninstall { name, global }),
        SkillAction::List { installed, local, global, profiles, json } => {
            if profiles {
                Ok(Operation::ListProfiles { json })
            } else if installed || local || global {
                Ok(
                    Operation::ListInstalled {
                        local: installed || local,
                        global: installed || global,
                        json,
                    },
                )
            } else {
                Ok(Operation::ListAvailable { json })
            }
        },
        SkillAction::Init => Ok(Operation::Init),
        SkillAction::Which { name } => Ok(Operation::Which { name }),
        SkillAction::Update { name, global, local } => Ok(
            Operation::Update { name, only_global: global, only_local: local },
        ),
    }
}

/// Says what a selection of the user comes to: what `selection_result`
/// says. `confirmed` is the user's answer to the question whether to go on;
/// it counts for a profile and for a list of skills.
pub fn interactive_install(
    selection: InteractiveSelection,
    confirmed: bool,
    global: bool,
    force: bool,
) -> (r: Result<Operation, SkillError>)
    ensures
        selection_result(selection, confirmed, global, force, r),
{
    match selection {
        InteractiveSelection::Profile(name) => {
            if confirmed {
                Ok(Operation::InstallProfile { name, global, force })
            } else {
                Ok(Operation::Nothing)
            }
        },
        InteractiveSelection::Skills(skills) => {
            if confirmed {
                Ok(Operation::InstallSkills { skills, global, force })
            } else {
                Ok(Operation::Nothing)
            }
        },
        InteractiveSelection::Remote(text) => install(
            None,
            global,
            force,
            None,
            false,
            Some(text),
            true,
        ),
        InteractiveSelection::CloneAndInstall => Ok(Operation::CloneAndInstall { global, force }),
        InteractiveSelection::Cancelled => Ok(Operation::Nothing),
    }
}

} // verus!
