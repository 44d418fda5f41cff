//! Updating skills that were installed from a remote origin.
//!
//! Only an entry that carries the record of its origin can be updated. What
//! is to be updated is found here; fetching is the caller's part, and what
//! was fetched is then put in place here.

use vstd::prelude::*;
use vstd::string::*;
use crate::error::SkillError;
use crate::installed::{
    find_all_remote_skills, find_update_targets, group_remote_members, lemma_installed_is_found,
    located, Place, places, PlaceText, remote_children, remote_places, Slot, slot_valid, trimmed,
    update_targets,
};
use crate::reconcile::{remote_copy, t_with_meta};
use crate::remote::{first_pos, parse_spec, RemoteSpec, spec_format, spec_parse};
use crate::tree::{
    children, Entry, find_entry, has_name, is_group, is_remote, is_skill, lemma_first_named, lookup,
    meta_name, Node, node_is_skill, t_kids, Tree, view_node,
};

verus! {

/// Which of the two targets a place is under.
#[derive(Debug, Clone, Copy, PartialEq, Eq, Structural)]
pub enum Scope {
    Local,
    Global,
}

/// How many skills an update brought up to date and how many it failed on.
#[derive(Debug, Clone, Copy, PartialEq, Eq, Structural)]
pub struct UpdateTally {
    pub updated: usize,
    pub failed: usize,
}

/// The text of the record of origin that a node carries: the content of its
/// first entry of the record's name, where that is a file.
pub open spec fn meta_text(n: Node) -> Option<Seq<char>> {
    match lookup(children(n), meta_name()) {
        Some(k) => match children(n)[k].node {
            Node::File { content } => Some(content@),
            _ => None,
        },
        None => None,
    }
}

/// `now` is `was` with the tree `x` in the slot `s`, under the name that the
/// slot had; every other entry is as it was.
pub open spec fn slot_replaced(was: Seq<Entry>, now: Seq<Entry>, s: Slot, x: Tree) -> bool {
    &&& now.len() == was.len()
    &&& match s.group {
        None => {
            &&& now[s.index as int].name == was[s.index as int].name
            &&& view_node(now[s.index as int].node) == x
            &&& forall|j: int| 0 <= j < was.len() && j != s.index ==> #[trigger] now[j] == was[j]
        },
        Some(g) => {
            let kids = children(was[g as int].node);
            let fresh = children(now[g as int].node);
            &&& now[g as int].name == was[g as int].name
            &&& now[g as int].node is Dir
            &&& forall|j: int| 0 <= j < was.len() && j != g ==> #[trigger] now[j] == was[j]
            &&& fresh.len() == kids.len()
            &&& fresh[s.index as int].name == kids[s.index as int].name
            &&& view_node(fresh[s.index as int].node) == x
            &&& forall|j: int|
                0 <= j < kids.len() && j != s.index ==> #[trigger] fresh[j] == kids[j]
        },
    }
}

/// The targets of one scope: those that the name stands for, or, without a
/// name, every remote skill of the scope.
pub open spec fn scope_targets(es: Seq<Entry>, name: Option<Seq<char>>) -> Result<
    Seq<PlaceText>,
    SkillError,
> {
    match name {
        Some(n) => update_targets(es, trimmed(n)),
        None => Ok(remote_places(es)),
    }
}

/// Each place of `ps` with its scope.
pub open spec fn scoped(scope: Scope, ps: Seq<PlaceText>) -> Seq<(Scope, PlaceText)> {
    ps.map_values(|p: PlaceText| (scope, p))
}

/// What an update is to work on, over both scopes: the local targets, then
/// the global ones. A scope that is left out has none. The first scope that
/// refuses the name ends the search with its error. A name for which no
/// scope has a target is not found.
pub open spec fn update_plan(
    local: Seq<Entry>,
    global: Seq<Entry>,
    name: Option<Seq<char>>,
    only_global: bool,
    only_local: bool,
) -> Result<Seq<(Scope, PlaceText)>, SkillError> {
    let l = if only_global {
        Ok(Seq::empty())
    } else {
        scope_targets(local, name)
    };
    let g = if only_local {
        Ok(Seq::empty())
    } else {
        scope_targets(global, name)
    };
    match l {
        Err(e) => Err(e),
        Ok(ls) => match g {
            Err(e) => Err(e),
            Ok(gs) => if name is Some && ls.len() + gs.len() == 0 {
                Err(SkillError::NotFound)
            } else {
                Ok(scoped(Scope::Local, ls) + scoped(Scope::Global, gs))
            },
        },
    }
}

/// The views of a list of places with their scopes.
pub open spec fn scoped_places(v: Seq<(Scope, Place)>) -> Seq<(Scope, PlaceText)> {
    v.map_values(|p: (Scope, Place)| (p.0, p.1@))
}

/// The name of an update as text, if it has one.
pub open spec fn name_text(name: Option<&str>) -> Option<Seq<char>> {
    match name {
        Some(n) => Some(n@),
        None => None,
    }
}

/// Reads the record of origin that an installed skill carries.
///
/// Succeeds exactly where the node holds a record file whose text is a
/// remote address; a missing or unreadable record is a remote failure.
pub fn read_metadata(node: &Node) -> (r: Result<RemoteSpec, SkillError>)
    ensures
        match r {
            Ok(spec) => meta_text(*node) is Some && spec_parse(meta_text(*node).unwrap()) == Some(
                spec@,
            ),
            Err(e) => e == SkillError::RemoteFailure && (meta_text(*node) is None || spec_parse(
                meta_text(*node).unwrap(),
            ) is None),
        },
{
    proof {
        reveal_strlit(".remote-source");
        assert(".remote-source"@ =~= meta_name());
    }
    match node {
        Node::Dir { entries } => match find_entry(entries, ".remote-source") {
            Some(k) => match &entries[k].node {
                Node::File { content } => match parse_spec(content.as_str()) {
                    Ok(spec) => Ok(spec),
                    Err(_) => Err(SkillError::RemoteFailure),
                },
                _ => Err(SkillError::RemoteFailure),
            },
            None => Err(SkillError::RemoteFailure),
        },
        _ => {
            assert(lookup(children(*node), meta_name()) is None);
            Err(SkillError::RemoteFailure)
        },
    }
}

/// Appends the places of `ps` to `out`, each with `scope`.
fn push_scoped(out: &mut Vec<(Scope, Place)>, scope: Scope, ps: Vec<Place>)
    ensures
        scoped_places(final(out)@) == scoped_places(old(out)@) + scoped(scope, places(ps@)),
{
    let ghost base = scoped_places(out@);
    let ghost all = ps@;
    let mut rest: Vec<Place> = ps;
    let ghost mut k: int = 0;
    assert(scoped_places(out@) =~= base + scoped(scope, places(all.subrange(0, 0))));
    assert(rest@ =~= all.subrange(0, all.len() as int));
    while rest.len() > 0
        invariant
            0 <= k <= all.len(),
            rest@ == all.subrange(k, all.len() as int),
            scoped_places(out@) == base + scoped(scope, places(all.subrange(0, k))),
        decreases rest@.len(),
    {
        proof {
            assert(rest@[0] == all[k]);
            assert(rest@.remove(0) =~= all.subrange(k + 1, all.len() as int));
        }
        let ghost before = out@;
        let p: Place = rest.remove(0);
        out.push((scope, p));
        proof {
            assert(scoped_places(out@) =~= scoped_places(before).push((scope, all[k]@)));
            assert(places(all.subrange(0, k + 1)) =~= places(all.subrange(0, k)).push(all[k]@));
            assert(scoped_places(out@) =~= base + scoped(
                scope,
                places(all.subrange(0, k + 1)),
            ));
            k = k + 1;
        }
    }
    assert(all.subrange(0, all.len() as int) =~= all);
}

/// The targets of one scope.
fn targets_in(es: &Vec<Entry>, name: Option<&str>) -> (r: Result<Vec<Place>, SkillError>)
    ensures
        match r {
            Ok(v) => scope_targets(es@, name_text(name)) == Ok::<Seq<PlaceText>, SkillError>(
                places(v@),
            ),
            Err(e) => scope_targets(es@, name_text(name)) == Err::<Seq<PlaceText>, SkillError>(e),
        },
{
    match name {
        Some(n) => find_update_targets(es, n),
        None => Ok(find_all_remote_skills(es)),
    }
}

/// Finds what an update is to work on, as `update_plan` says.
///
/// `local` and `global` are the listings of the two targets; a target that
/// does not exist is an empty listing. The caller then takes the places one
/// by one: it reads the record, fetches, and puts what it fetched in place,
/// counting failures without stopping.
pub fn update(
    name: Option<&str>,
    local: &Vec<Entry>,
    global: &Vec<Entry>,
    only_global: bool,
    only_local: bool,
) -> (r: Result<Vec<(Scope, Place)>, SkillError>)
    ensures
        match r {
            Ok(v) => update_plan(local@, global@, name_text(name), only_global, only_local)
                == Ok::<Seq<(Scope, PlaceText)>, SkillError>(scoped_places(v@)),
            Err(e) => update_plan(local@, global@, name_text(name), only_global, only_local)
                == Err::<Seq<(Scope, PlaceText)>, SkillError>(e),
        },
{
    let mut out: Vec<(Scope, Place)> = Vec::new();
    assert(scoped_places(out@) =~= Seq::<(Scope, PlaceText)>::empty());
    let ghost mut ls: Seq<PlaceText> = Seq::empty();
    let ghost mut gs: Seq<PlaceText> = Seq::empty();
    if !only_global {
        match targets_in(local, name) {
            Ok(found) => {
                proof {
                    ls = places(found@);
                }
                push_scoped(&mut out, Scope::Local, found);
            },
            Err(e) => {
                return Err(e);
            },
        }
    }
    assert(scoped_places(out@) =~= scoped(Scope::Local, ls));
    if !only_local {
        match targets_in(global, name) {
            Ok(found) => {
                proof {
                    gs = places(found@);
                }
                push_scoped(&mut out, Scope::Global, found);
            },
            Err(e) => {
                return Err(e);
            },
        }
    }
    assert(scoped_places(out@) =~= scoped(Scope::Local, ls) + scoped(Scope::Global, gs));
    if name.is_some() && out.len() == 0 {
        return Err(SkillError::NotFound);
    }
    Ok(out)
}

/// Counts the outcome of one item of an update. A failure is counted and
/// never ends the update: the items that follow are still worked on.
pub fn record_update(tally: UpdateTally, outcome: &Result<(), SkillError>) -> (r: UpdateTally)
    requires
        tally.updated + tally.failed < usize::MAX,
    ensures
        outcome is Ok ==> r.updated == tally.updated + 1 && r.failed == tally.failed,
        outcome is Err ==> r.updated == tally.updated && r.failed == tally.failed + 1,
{
    match outcome {
        Ok(_) => UpdateTally { updated: tally.updated + 1, failed: tally.failed },
        Err(_) => UpdateTally { updated: tally.updated, failed: tally.failed + 1 },
    }
}

/// Puts a freshly fetched skill in the place of an installed one.
///
/// Where what was fetched is no skill any more, the item fails as a remote
/// failure and the target stays as it was. Otherwise the entry in the slot
/// keeps its name and becomes a copy of what was fetched, with the record of
/// `spec` written anew.
pub fn apply_update(target: &mut Vec<Entry>, s: Slot, fetched: &Node, spec: &RemoteSpec) -> (r:
    Result<(), SkillError>)
    requires
        slot_valid(old(target)@, s),
    ensures
        match r {
            Ok(_) => is_skill(*fetched) && slot_replaced(
                old(target)@,
                final(target)@,
                s,
                Tree::Dir(t_with_meta(t_kids(view_node(*fetched)), spec_format(spec@))),
            ),
            Err(e) => e == SkillError::RemoteFailure && !is_skill(*fetched) && final(target)@
                == old(target)@,
        },
{
    if !node_is_skill(fetched) {
        return Err(SkillError::RemoteFailure);
    }
    let fresh: Node = remote_copy(fetched, spec);
    let ghost es = target@;
    match s.group {
        None => {
            let Entry { name, node: _ } = target.remove(s.index);
            target.insert(s.index, Entry { name, node: fresh });
        },
        Some(g) => {
            let Entry { name: gname, node } = target.remove(g);
            match node {
                Node::Dir { entries } => {
                    let mut kids: Vec<Entry> = entries;
                    let Entry { name, node: _ } = kids.remove(s.index);
                    kids.insert(s.index, Entry { name, node: fresh });
                    target.insert(g, Entry { name: gname, node: Node::Dir { entries: kids } });
                },
                _ => {},
            }
        },
    }
    Ok(())
}

/// A link never carries the record of a remote origin.
pub proof fn law_link_is_never_remote(n: Node)
    requires
        n is Link,
    ensures
        !is_remote(n),
        meta_text(n) is None,
{
}

/// Every child that `remote_children` names is a visible child with a
/// remote origin.
pub proof fn lemma_remote_children_are_remote(g: Seq<char>, es: Seq<Entry>, k: int)
    requires
        0 <= k < remote_children(g, es).len(),
    ensures
        exists|i: int|
            0 <= i < es.len() && is_remote((#[trigger] es[i]).node) && remote_children(g, es)[k]
                == (Some(g), es[i].name@),
    decreases es.len(),
{
    let pre = es.drop_last();
    if k < remote_children(g, pre).len() {
        lemma_remote_children_are_remote(g, pre, k);
        let i = choose|i: int|
            0 <= i < pre.len() && is_remote((#[trigger] pre[i]).node) && remote_children(g, pre)[k]
                == (Some(g), pre[i].name@);
        assert(es[i] == pre[i]);
    } else {
        assert(es[es.len() - 1] == es.last());
    }
}

/// The place `pl` is that of an entry with a remote origin: the entry `i` of
/// the target where the place names no group, else the entry `j` of the
/// directory `i`.
pub open spec fn remote_at(es: Seq<Entry>, pl: PlaceText, i: int, j: int) -> bool {
    &&& 0 <= i < es.len()
    &&& match pl.0 {
        None => is_remote(es[i].node) && pl.1 == es[i].name@,
        Some(g) => {
            &&& g == es[i].name@
            &&& 0 <= j < children(es[i].node).len()
            &&& is_remote(children(es[i].node)[j].node)
            &&& pl.1 == children(es[i].node)[j].name@
        },
    }
}

/// An update by name only ever touches what has a remote origin: every
/// place that the name stands for is that of an entry which carries the
/// record.
pub proof fn law_named_update_touches_remote_only(es: Seq<Entry>, nm: Seq<char>, k: int)
    requires
        es.len() <= usize::MAX,
        update_targets(es, nm) is Ok,
        0 <= k < update_targets(es, nm)->Ok_0.len(),
    ensures
        exists|i: int, j: int| #[trigger] remote_at(es, update_targets(es, nm)->Ok_0[k], i, j),
{
    let pl = update_targets(es, nm)->Ok_0[k];
    if first_pos(nm, '/') is None && group_remote_members(es, nm).len() > 0 {
        let i = lookup(es, nm).unwrap();
        assert(has_name(es, nm));
        let w = choose|w: int| 0 <= w < es.len() && (#[trigger] es[w]).name@ == nm;
        lemma_first_named(es, nm, w);
        lemma_remote_children_are_remote(nm, children(es[i].node), k);
        let j = choose|j: int|
            0 <= j < children(es[i].node).len() && is_remote(
                (#[trigger] children(es[i].node)[j]).node,
            ) && remote_children(nm, children(es[i].node))[k] == (
                Some(nm),
                children(es[i].node)[j].name@,
            );
        assert(remote_at(es, pl, i, j));
    } else {
        lemma_installed_is_found(es, nm);
        let s = choose|s: Slot| located(es, nm, s);
        match s.group {
            Some(g) => {
                assert(remote_at(es, pl, g as int, s.index as int));
            },
            None => {
                assert(remote_at(es, pl, s.index as int, 0));
            },
        }
    }
}

/// An update without a name only ever touches what has a remote origin:
/// every place that is found is that of an entry which carries the record,
/// directly under the target or in one of its real groups.
pub proof fn law_update_touches_remote_only(es: Seq<Entry>, k: int)
    requires
        0 <= k < remote_places(es).len(),
    ensures
        exists|i: int, j: int| #[trigger] remote_at(es, remote_places(es)[k], i, j),
    decreases es.len(),
{
    let pre = es.drop_last();
    let last = es.last();
    if k < remote_places(pre).len() {
        law_update_touches_remote_only(pre, k);
        let (i, j) = choose|i: int, j: int| #[trigger] remote_at(pre, remote_places(pre)[k], i, j);
        assert(es[i] == pre[i]);
        assert(remote_places(es)[k] == remote_places(pre)[k]);
        assert(remote_at(es, remote_places(es)[k], i, j));
    } else {
        let i = es.len() - 1;
        assert(es[i] == last);
        if is_group(last.node) {
            let kk = k - remote_places(pre).len();
            lemma_remote_children_are_remote(last.name@, children(last.node), kk);
            let j = choose|j: int|
                0 <= j < children(last.node).len() && is_remote(
                    (#[trigger] children(last.node)[j]).node,
                ) && remote_children(last.name@, children(last.node))[kk] == (
                    Some(last.name@),
                    children(last.node)[j].name@,
                );
            assert(remote_at(es, remote_places(es)[k], i, j));
        } else {
            assert(remote_at(es, remote_places(es)[k], i, 0));
        }
    }
}

} // verus!
