//! Removing skills from a target.
//!
//! A name is tried as a real group first, then as a virtual group, then as a
//! single skill. One trailing `/` of the name is ignored.

use vstd::prelude::*;
use vstd::string::*;
use crate::error::SkillError;
use crate::installed::{
    in_virtual_group, inferred_group, locate, located, not_installed, Place, place_of,
    push_visible_names, Slot, slot_place, slot_valid, trim_separator, trimmed, virtual_members,
    visible_names,
};
use crate::text::same_text;
use crate::tree::{
    children, Entry, find_entry, is_group, is_hidden, lookup, name_is_hidden, Node, node_is_group,
    texts,
};

verus! {

/// What an uninstall removed.
#[derive(Debug, Clone, PartialEq, Eq)]
pub enum Removed {
    /// The visible members of a real group, by name.
    Group(Vec<String>),
    /// The flat skills of a virtual group, by name.
    VirtualGroup(Vec<String>),
    /// One skill.
    Skill(Place),
}

/// How a name is understood by an uninstall.
pub ghost enum Mode {
    /// A real group with visible members, at this position.
    Group(int),
    /// A real group without visible members.
    EmptyGroup,
    /// A virtual group with members.
    Virtual,
    /// A single skill that is installed.
    Single,
    /// Nothing that is installed.
    Missing,
}

/// The hidden entries among `es`, in order.
pub open spec fn hidden_only(es: Seq<Entry>) -> Seq<Entry>
    decreases es.len(),
{
    if es.len() == 0 {
        Seq::empty()
    } else {
        let pre = hidden_only(es.drop_last());
        if is_hidden(es.last().name@) {
            pre.push(es.last())
        } else {
            pre
        }
    }
}

/// The entries of `es` that are no flat skill of the virtual group `g`, in
/// order.
pub open spec fn flat_rest(es: Seq<Entry>, g: Seq<char>) -> Seq<Entry>
    decreases es.len(),
{
    if es.len() == 0 {
        Seq::empty()
    } else {
        let pre = flat_rest(es.drop_last(), g);
        if in_virtual_group(es.last(), g) {
            pre
        } else {
            pre.push(es.last())
        }
    }
}

/// `now` is `was` with the entries of the directory `i` replaced by `kids`.
pub open spec fn with_kids(was: Seq<Entry>, now: Seq<Entry>, i: int, kids: Seq<Entry>) -> bool {
    &&& now.len() == was.len()
    &&& now[i].name == was[i].name
    &&& now[i].node is Dir
    &&& children(now[i].node) == kids
    &&& forall|j: int| 0 <= j < was.len() && j != i ==> #[trigger] now[j] == was[j]
}

/// `now` is `was` after the directory `i` was left with `kids`: the directory
/// is gone where nothing is left in it, and holds `kids` otherwise.
pub open spec fn after_kids(was: Seq<Entry>, now: Seq<Entry>, i: int, kids: Seq<Entry>) -> bool {
    if kids.len() == 0 {
        now == was.remove(i)
    } else {
        with_kids(was, now, i, kids)
    }
}

/// How an uninstall understands the name `nm`.
pub open spec fn uninstall_mode(es: Seq<Entry>, nm: Seq<char>) -> Mode {
    if lookup(es, nm) is Some && is_group(es[lookup(es, nm).unwrap()].node) {
        if visible_names(children(es[lookup(es, nm).unwrap()].node)).len() == 0 {
            Mode::EmptyGroup
        } else {
            Mode::Group(lookup(es, nm).unwrap())
        }
    } else if virtual_members(es, nm).len() > 0 {
        Mode::Virtual
    } else if not_installed(es, nm) {
        Mode::Missing
    } else {
        Mode::Single
    }
}

/// `now` is `was` without the entry in the slot `s`, and without the
/// directory that held it where nothing is left in that.
pub open spec fn slot_removed(was: Seq<Entry>, now: Seq<Entry>, s: Slot) -> bool {
    match s.group {
        None => now == was.remove(s.index as int),
        Some(g) => after_kids(
            was,
            now,
            g as int,
            children(was[g as int].node).remove(s.index as int),
        ),
    }
}

/// Parts a listing into its hidden entries and the names of the others.
pub fn split_hidden(entries: Vec<Entry>) -> (r: (Vec<Entry>, Vec<String>))
    ensures
        r.0@ == hidden_only(entries@),
        texts(r.1@) == visible_names(entries@),
{
    let ghost all = entries@;
    let mut rest: Vec<Entry> = entries;
    let mut kept: Vec<Entry> = Vec::new();
    let mut names: Vec<String> = Vec::new();
    let ghost mut k: int = 0;
    assert(all.subrange(0, 0) =~= Seq::<Entry>::empty());
    assert(texts(names@) =~= visible_names(all.subrange(0, 0)));
    assert(rest@ =~= all.subrange(0, all.len() as int));
    while rest.len() > 0
        invariant
            0 <= k <= all.len(),
            rest@ == all.subrange(k, all.len() as int),
            kept@ == hidden_only(all.subrange(0, k)),
            texts(names@) == visible_names(all.subrange(0, k)),
        decreases rest@.len(),
    {
        proof {
            assert(all.subrange(0, k + 1).drop_last() =~= all.subrange(0, k));
            assert(rest@[0] == all[k]);
            assert(rest@.remove(0) =~= all.subrange(k + 1, all.len() as int));
        }
        let e: Entry = rest.remove(0);
        if name_is_hidden(e.name.as_str()) {
            kept.push(e);
        } else {
            let ghost before = names@;
            names.push(e.name);
            assert(texts(names@) =~= texts(before).push(all[k].name@));
        }
        proof {
            k = k + 1;
        }
    }
    assert(all.subrange(0, all.len() as int) =~= all);
    (kept, names)
}

/// Removes the flat skills of the virtual group `g` from the target, and
/// gives their names.
pub fn remove_virtual(target: &mut Vec<Entry>, g: &str) -> (r: Vec<String>)
    ensures
        final(target)@ == flat_rest(old(target)@, g@),
        texts(r@) == virtual_members(old(target)@, g@),
{
    let ghost all = target@;
    let mut rest: Vec<Entry> = Vec::new();
    core::mem::swap(target, &mut rest);
    let mut names: Vec<String> = Vec::new();
    let ghost mut k: int = 0;
    assert(all.subrange(0, 0) =~= Seq::<Entry>::empty());
    assert(texts(names@) =~= virtual_members(all.subrange(0, 0), g@));
    assert(rest@ =~= all.subrange(0, all.len() as int));
    assert(target@ =~= flat_rest(all.subrange(0, 0), g@));
    while rest.len() > 0
        invariant
            0 <= k <= all.len(),
            rest@ == all.subrange(k, all.len() as int),
            target@ == flat_rest(all.subrange(0, k), g@),
            texts(names@) == virtual_members(all.subrange(0, k), g@),
        decreases rest@.len(),
    {
        proof {
            assert(all.subrange(0, k + 1).drop_last() =~= all.subrange(0, k));
            assert(rest@[0] == all[k]);
            assert(rest@.remove(0) =~= all.subrange(k + 1, all.len() as int));
        }
        let e: Entry = rest.remove(0);
        let mut member: bool = false;
        if !name_is_hidden(e.name.as_str()) && !node_is_group(&e.node) {
            let group: String = inferred_group(&e.node);
            member = same_text(group.as_str(), g);
        }
        assert(member == in_virtual_group(all[k], g@));
        if member {
            let ghost before = names@;
            names.push(e.name);
            assert(texts(names@) =~= texts(before).push(all[k].name@));
        } else {
            target.push(e);
        }
        proof {
            k = k + 1;
        }
    }
    assert(all.subrange(0, all.len() as int) =~= all);
    names
}

/// Removes the entry `index` of the directory `g` of the target, and the
/// directory with it where nothing is left in that.
pub fn remove_child(target: &mut Vec<Entry>, g: usize, index: usize)
    requires
        g < old(target)@.len(),
        index < children(old(target)@[g as int].node).len(),
    ensures
        after_kids(
            old(target)@,
            final(target)@,
            g as int,
            children(old(target)@[g as int].node).remove(index as int),
        ),
{
    let Entry { name, node } = target.remove(g);
    match node {
        Node::Dir { entries } => {
            let mut kids: Vec<Entry> = entries;
            kids.remove(index);
            if kids.len() > 0 {
                target.insert(g, Entry { name, node: Node::Dir { entries: kids } });
            }
        },
        _ => {},
    }
}

/// Uninstalls what `name` stands for.
///
/// A real group loses its visible members, and goes itself where nothing is
/// left in it; a real group without visible members is reported as not found.
/// A virtual group loses its flat skills and nothing else. A single skill is
/// removed, and its directory with it where that is left empty. A name that
/// stands for nothing installed is not found, and the target stays as it was.
pub fn uninstall(target: &mut Vec<Entry>, name: &str) -> (r: Result<Removed, SkillError>)
    ensures
        ({
            let nm = trimmed(name@);
            let es = old(target)@;
            match uninstall_mode(es, nm) {
                Mode::Group(i) => r matches Ok(Removed::Group(names)) && texts(names@)
                    == visible_names(children(es[i].node)) && after_kids(
                    es,
                    final(target)@,
                    i,
                    hidden_only(children(es[i].node)),
                ),
                Mode::EmptyGroup => r matches Err(SkillError::NotFound) && final(target)@ == es,
                Mode::Virtual => r matches Ok(Removed::VirtualGroup(names)) && texts(names@)
                    == virtual_members(es, nm) && final(target)@ == flat_rest(es, nm),
                Mode::Single => r matches Ok(Removed::Skill(pl)) && exists|s: Slot| #[trigger]
                    located(es, nm, s) && slot_valid(es, s) && pl@ == slot_place(es, s)
                        && slot_removed(es, final(target)@, s),
                Mode::Missing => r matches Err(SkillError::NotFound) && final(target)@ == es,
            }
        }),
{
    let nm: String = trim_separator(name);
    let ghost es = target@;
    match find_entry(target, nm.as_str()) {
        Some(i) => {
            if node_is_group(&target[i].node) {
                let mut visible: Vec<String> = Vec::new();
                match &target[i].node {
                    Node::Dir { entries } => {
                        assert(texts(visible@) =~= Seq::<Seq<char>>::empty());
                        push_visible_names(entries, &mut visible);
                        assert(texts(visible@) =~= visible_names(entries@));
                    },
                    _ => {},
                }
                assert(texts(visible@).len() == visible@.len());
                if visible.len() == 0 {
                    return Err(SkillError::NotFound);
                }
                let Entry { name: gname, node } = target.remove(i);
                match node {
                    Node::Dir { entries } => {
                        let (kept, names) = split_hidden(entries);
                        if kept.len() > 0 {
                            target.insert(i, Entry { name: gname, node: Node::Dir { entries: kept } });
                        }
                        return Ok(Removed::Group(names));
                    },
                    _ => {
                        return Err(SkillError::NotFound);
                    },
                }
            }
        },
        None => {},
    }
    let members: Vec<String> = remove_virtual(target, nm.as_str());
    if members.len() > 0 {
        assert(texts(members@).len() == members@.len());
        return Ok(Removed::VirtualGroup(members));
    }
    assert(texts(members@).len() == members@.len());
    proof {
        lemma_nothing_to_remove(es, nm@);
    }
    match locate(target, nm.as_str()) {
        None => Err(SkillError::NotFound),
        Some(s) => {
            let pl: Place = place_of(target, s);
            match s.group {
                None => {
                    target.remove(s.index);
                },
                Some(g) => {
                    remove_child(target, g, s.index);
                },
            }
            assert(located(es, nm@, s));
            Ok(Removed::Skill(pl))
        },
    }
}

/// Where a virtual group has no members, nothing is removed with it.
pub proof fn lemma_nothing_to_remove(es: Seq<Entry>, g: Seq<char>)
    requires
        virtual_members(es, g).len() == 0,
    ensures
        flat_rest(es, g) == es,
    decreases es.len(),
{
    if es.len() > 0 {
        lemma_nothing_to_remove(es.drop_last(), g);
        assert(es.drop_last().push(es.last()) =~= es);
    }
}

/// Uninstalling a group leaves none of its members: what stays of the group
/// are entries that it had and that are hidden, and where it had no hidden
/// entry nothing stays, so that the group goes with its members.
pub proof fn law_group_uninstall_removes_members(kids: Seq<Entry>)
    ensures
        forall|i: int|
            0 <= i < hidden_only(kids).len() ==> is_hidden((#[trigger] hidden_only(kids)[i]).name@)
                && kids.contains(hidden_only(kids)[i]),
        visible_names(hidden_only(kids)).len() == 0,
        (forall|i: int| 0 <= i < kids.len() ==> !is_hidden((#[trigger] kids[i]).name@))
            ==> hidden_only(kids).len() == 0,
    decreases kids.len(),
{
    if kids.len() > 0 {
        let pre = kids.drop_last();
        law_group_uninstall_removes_members(pre);
        assert forall|i: int| 0 <= i < hidden_only(kids).len() implies is_hidden(
            (#[trigger] hidden_only(kids)[i]).name@,
        ) && kids.contains(hidden_only(kids)[i]) by {
            if i < hidden_only(pre).len() {
                let e = hidden_only(pre)[i];
                assert(pre.contains(e));
                let j = choose|j: int| 0 <= j < pre.len() && pre[j] == e;
                assert(kids[j] == e);
            } else {
                assert(kids[kids.len() - 1] == kids.last());
            }
        }
        if is_hidden(kids.last().name@) {
            assert(hidden_only(kids).drop_last() =~= hidden_only(pre));
        }
        if forall|i: int| 0 <= i < kids.len() ==> !is_hidden((#[trigger] kids[i]).name@) {
            assert forall|i: int| 0 <= i < pre.len() implies !is_hidden(
                (#[trigger] pre[i]).name@,
            ) by {
                assert(pre[i] == kids[i]);
            }
            assert(!is_hidden(kids[kids.len() - 1].name@));
        }
    }
}

/// Uninstalling a virtual group removes the flat skills of that group and
/// nothing else: an entry stays exactly when the target had it and it is no
/// flat skill of the group, and the group has no member afterwards.
pub proof fn law_virtual_uninstall_keeps_others(es: Seq<Entry>, g: Seq<char>)
    ensures
        forall|e: Entry| #[trigger]
            flat_rest(es, g).contains(e) <==> es.contains(e) && !in_virtual_group(e, g),
        virtual_members(flat_rest(es, g), g).len() == 0,
    decreases es.len(),
{
    if es.len() > 0 {
        let pre = es.drop_last();
        let last = es.last();
        law_virtual_uninstall_keeps_others(pre, g);
        assert forall|e: Entry| #[trigger]
            flat_rest(es, g).contains(e) <==> es.contains(e) && !in_virtual_group(e, g) by {
            if flat_rest(es, g).contains(e) {
                let i = choose|i: int| 0 <= i < flat_rest(es, g).len() && flat_rest(es, g)[i] == e;
                if i < flat_rest(pre, g).len() {
                    assert(flat_rest(pre, g)[i] == e);
                    assert(flat_rest(pre, g).contains(e));
                    let j = choose|j: int| 0 <= j < pre.len() && pre[j] == e;
                    assert(es[j] == e);
                } else {
                    assert(e == last);
                    assert(es[es.len() - 1] == e);
                }
            }
            if es.contains(e) && !in_virtual_group(e, g) {
                let j = choose|j: int| 0 <= j < es.len() && es[j] == e;
                if j < pre.len() {
                    assert(pre[j] == e);
                    assert(pre.contains(e));
                    assert(flat_rest(pre, g).contains(e));
                    let i = choose|i: int|
                        0 <= i < flat_rest(pre, g).len() && flat_rest(pre, g)[i] == e;
                    assert(flat_rest(es, g)[i] == e);
                } else {
                    assert(e == last);
                    assert(flat_rest(es, g)[flat_rest(es, g).len() - 1] == e);
                }
            }
        }
        if !in_virtual_group(last, g) {
            assert(flat_rest(es, g).drop_last() =~= flat_rest(pre, g));
        }
    } else {
        assert forall|e: Entry| #[trigger]
            flat_rest(es, g).contains(e) <==> es.contains(e) && !in_virtual_group(e, g) by {}
    }
}

} // verus!
