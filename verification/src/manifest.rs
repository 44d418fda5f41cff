//! The post-install manifest: copy rules and their safety checks.
//!
//! A rule names a source inside the repository and a destination under the
//! user's home directory. Every rule of a manifest is checked before any of
//! them is carried out; one bad rule rejects the whole manifest.

use vstd::prelude::*;
use vstd::string::*;
use crate::text::{char_len, contains_dotdot, first_is, has_dotdot, owned, same_text, slice_of};

verus! {

/// The manifest of a source repository.
#[derive(Debug, Default, Clone, PartialEq, Eq)]
pub struct Manifest {
    pub setup: Setup,
}

/// The setup section of a manifest.
#[derive(Debug, Default, Clone, PartialEq, Eq)]
pub struct Setup {
    pub copy: Vec<SetupCopy>,
}

/// One copy rule: `from` is relative to the repository, `to` to the home directory.
#[derive(Debug, Clone, PartialEq, Eq)]
pub struct SetupCopy {
    pub from: String,
    pub to: String,
    pub strategy: String,
}

/// How a copy rule treats a destination file that already exists.
#[derive(Debug, Clone, Copy, PartialEq, Eq, Structural)]
pub enum Strategy {
    /// Keep the existing file.
    Merge,
    /// Overwrite it.
    Replace,
}

/// Why a copy rule is refused. The checks run in this order, and the first
/// that fails names the error.
#[derive(Debug, Clone, Copy, PartialEq, Eq, Structural)]
pub enum RuleError {
    /// `from` is absolute or holds `..`.
    SourceEscapes,
    /// `to` is not `~` and does not begin with `~/`.
    TargetNotHome,
    /// `to` holds `..`.
    TargetTraversal,
    /// `strategy` is neither `merge` nor `replace`.
    UnknownStrategy,
}

/// The text `merge`.
pub open spec fn merge_text() -> Seq<char> {
    seq!['m', 'e', 'r', 'g', 'e']
}

/// The text `replace`.
pub open spec fn replace_text() -> Seq<char> {
    seq!['r', 'e', 'p', 'l', 'a', 'c', 'e']
}

/// A source path that stays inside the repository: relative, and without `..`.
pub open spec fn source_stays_inside(from: Seq<char>) -> bool {
    !has_dotdot(from) && !(from.len() > 0 && from[0] == '/')
}

/// A destination written relative to the home directory: `~` alone, or a
/// text that begins with `~/`.
pub open spec fn home_relative(to: Seq<char>) -> bool {
    to.len() >= 1 && to[0] == '~' && (to.len() == 1 || to[1] == '/')
}

/// The strategy that a text names, if it names one.
pub open spec fn strategy_named(s: Seq<char>) -> Option<Strategy> {
    if s == merge_text() {
        Some(Strategy::Merge)
    } else if s == replace_text() {
        Some(Strategy::Replace)
    } else {
        None
    }
}

/// The verdict on one rule: `None` where it is safe, else the first check it fails.
pub open spec fn rule_verdict(rule: SetupCopy) -> Option<RuleError> {
    if !source_stays_inside(rule.from@) {
        Some(RuleError::SourceEscapes)
    } else if !home_relative(rule.to@) {
        Some(RuleError::TargetNotHome)
    } else if has_dotdot(rule.to@) {
        Some(RuleError::TargetTraversal)
    } else if strategy_named(rule.strategy@) is None {
        Some(RuleError::UnknownStrategy)
    } else {
        None
    }
}

/// Every rule of the sequence is safe.
pub open spec fn all_rules_safe(rules: Seq<SetupCopy>) -> bool {
    forall|i: int| 0 <= i < rules.len() ==> rule_verdict(#[trigger] rules[i]) is None
}

/// `i` is the first rule of the sequence that is refused.
pub open spec fn first_refused(rules: Seq<SetupCopy>, i: int) -> bool {
    &&& 0 <= i < rules.len()
    &&& rule_verdict(rules[i]) is Some
    &&& forall|j: int| 0 <= j < i ==> rule_verdict(#[trigger] rules[j]) is None
}

/// The strategy of a rule that does not name one.
pub fn default_strategy() -> (r: String)
    ensures
        r@ == merge_text(),
{
    proof {
        reveal_strlit("merge");
    }
    let r = String::from_str("merge");
    assert(r@ =~= merge_text());
    r
}

/// Reads a strategy's name.
pub fn parse_strategy(s: &str) -> (r: Option<Strategy>)
    ensures
        r == strategy_named(s@),
{
    proof {
        reveal_strlit("merge");
        reveal_strlit("replace");
        assert("merge"@ =~= merge_text());
        assert("replace"@ =~= replace_text());
    }
    if same_text(s, "merge") {
        Some(Strategy::Merge)
    } else if same_text(s, "replace") {
        Some(Strategy::Replace)
    } else {
        None
    }
}

/// Whether a destination is written relative to the home directory.
pub fn is_home_relative(to: &str) -> (r: bool)
    ensures
        r == home_relative(to@),
{
    let n: usize = char_len(to);
    if n == 0 || to.get_char(0) != '~' {
        return false;
    }
    if n == 1 {
        return true;
    }
    to.get_char(1) == '/'
}

/// Checks one copy rule. It is accepted exactly when its source stays inside
/// the repository, its destination is home-relative and free of `..`, and its
/// strategy is known; otherwise the first failing check is reported.
pub fn validate_copy_rule(rule: &SetupCopy) -> (r: Result<(), RuleError>)
    ensures
        match r {
            Ok(_) => rule_verdict(*rule) is None,
            Err(e) => rule_verdict(*rule) == Some(e),
        },
{
    if contains_dotdot(rule.from.as_str()) || first_is(rule.from.as_str(), '/') {
        return Err(RuleError::SourceEscapes);
    }
    if !is_home_relative(rule.to.as_str()) {
        return Err(RuleError::TargetNotHome);
    }
    if contains_dotdot(rule.to.as_str()) {
        return Err(RuleError::TargetTraversal);
    }
    match parse_strategy(rule.strategy.as_str()) {
        Some(_) => Ok(()),
        None => Err(RuleError::UnknownStrategy),
    }
}

/// Checks every rule of a manifest, in order. The manifest is accepted only
/// if all its rules are; otherwise the position of the first refused rule and
/// its error come back, and nothing of the manifest is to be carried out.
pub fn validate_manifest(manifest: &Manifest) -> (r: Result<(), (usize, RuleError)>)
    ensures
        match r {
            Ok(_) => all_rules_safe(manifest.setup.copy@),
            Err((i, e)) => first_refused(manifest.setup.copy@, i as int)
                && rule_verdict(manifest.setup.copy@[i as int]) == Some(e),
        },
{
    let n: usize = manifest.setup.copy.len();
    let mut i: usize = 0;
    while i < n
        invariant
            n == manifest.setup.copy@.len(),
            i <= n,
            forall|j: int| 0 <= j < i ==> rule_verdict(#[trigger] manifest.setup.copy@[j]) is None,
        decreases n - i,
    {
        match validate_copy_rule(&manifest.setup.copy[i]) {
            Ok(_) => {},
            Err(e) => {
                return Err((i, e));
            },
        }
        i += 1;
    }
    Ok(())
}

/// The text `~`.
pub open spec fn tilde_text() -> Seq<char> {
    seq!['~']
}

/// `rest` appended to the path `base`: a `rest` that begins with `/` stands
/// alone; otherwise the two are joined by one `/`, which is left out where
/// `base` is empty or ends in one.
pub open spec fn joined(base: Seq<char>, rest: Seq<char>) -> Seq<char> {
    if rest.len() > 0 && rest[0] == '/' {
        rest
    } else if base.len() == 0 || base.last() == '/' {
        base + rest
    } else {
        base + seq!['/'] + rest
    }
}

/// A path with a leading `~` replaced by the home directory `home`.
///
/// `~/rest` becomes `rest` appended to the home directory, and `~` alone the
/// home directory itself; where no home directory is known, `~` stands in
/// for it. Any other path is left as it is.
pub open spec fn home_resolved(path: Seq<char>, home: Option<Seq<char>>) -> Seq<char> {
    let base = match home {
        Some(h) => h,
        None => tilde_text(),
    };
    if path.len() >= 2 && path[0] == '~' && path[1] == '/' {
        joined(base, path.subrange(2, path.len() as int))
    } else if path == tilde_text() {
        base
    } else {
        path
    }
}

/// The home directory as text, where one is known.
pub open spec fn home_text(home: Option<String>) -> Option<Seq<char>> {
    match home {
        Some(h) => Some(h@),
        None => None,
    }
}

/// `dirs::home_dir`: the path of the user's home directory, or `None` where
/// the system shows none. It depends on the environment, so nothing is
/// claimed of the result.
#[verifier::external_body]
fn home_dir() -> (r: Option<String>) {
    match dirs::home_dir() {
        Some(p) => Some(p.to_string_lossy().into_owned()),
        None => None,
    }
}

/// `rest` appended to the path `base`.
pub fn join_path(base: &str, rest: &str) -> (r: String)
    ensures
        r@ == joined(base@, rest@),
{
    proof {
        reveal_strlit("/");
        assert("/"@ =~= seq!['/']);
    }
    if first_is(rest, '/') {
        return owned(rest);
    }
    let n: usize = char_len(base);
    let mut out: String = owned(base);
    if n > 0 && base.get_char(n - 1) != '/' {
        out.append("/");
    }
    out.append(rest);
    out
}

/// Resolves a leading `~` of a path against a given home directory.
pub fn resolve_home_in(path: &str, home: Option<String>) -> (r: String)
    ensures
        r@ == home_resolved(path@, home_text(home)),
{
    proof {
        reveal_strlit("~");
        assert("~"@ =~= tilde_text());
    }
    let base: String = match home {
        Some(h) => h,
        None => owned("~"),
    };
    let n: usize = char_len(path);
    if n >= 2 && path.get_char(0) == '~' && path.get_char(1) == '/' {
        let rest: String = slice_of(path, 2, n);
        join_path(base.as_str(), rest.as_str())
    } else if same_text(path, "~") {
        base
    } else {
        owned(path)
    }
}

/// Resolves a leading `~` of a path against the user's home directory, as
/// `home_resolved` says for the home directory that the system shows.
pub fn resolve_home(path: &str) -> (r: String)
    ensures
        exists|home: Option<Seq<char>>| r@ == #[trigger] home_resolved(path@, home),
        !(path@.len() >= 2 && path@[0] == '~' && path@[1] == '/') && path@ != tilde_text() ==> r@
            == path@,
{
    let home: Option<String> = home_dir();
    let r: String = resolve_home_in(path, home);
    assert(r@ == home_resolved(path@, home_text(home)));
    r
}

} // verus!
