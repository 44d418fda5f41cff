//! What a target directory holds.
//!
//! A target is the listing of an installation root. A top-level entry is
//! ignored where it is hidden, is a real group where it is a directory without
//! the marker file, and is a flat skill otherwise. A flat skill has no stored
//! group: one is inferred from where its link points.

use vstd::prelude::*;
use vstd::string::*;
use crate::error::SkillError;
use crate::library::{find_skill_in_source, first_group_with, group_holds, group_names};
use crate::paths::{parent_dir_name, parent_name};
use crate::remote::{first_pos, lemma_first_pos};
use crate::text::{char_len, find_from, has_char, owned, same_text, slice_of};
use crate::tree::{
    children, Entry, find_entry, has_name, is_group, is_hidden, is_remote, lemma_first_named,
    lemma_lookup, lookup, name_is_hidden, named_at, Node, node_is_group, node_is_remote, texts,
};

verus! {

/// The group of a flat skill of which nothing better is known: `other`.
pub open spec fn other_text() -> Seq<char> {
    seq!['o', 't', 'h', 'e', 'r']
}

/// The group inferred for a flat entry: for a link, the name of the directory
/// that holds what it points to; for anything else, and for a link that
/// shows none, `other`.
pub open spec fn virtual_group(n: Node) -> Seq<char> {
    match n {
        Node::Link { target } => match parent_name(target@) {
            Some(g) => g,
            None => other_text(),
        },
        _ => other_text(),
    }
}

/// The names among `es` that are not hidden, in order.
pub open spec fn visible_names(es: Seq<Entry>) -> Seq<Seq<char>>
    decreases es.len(),
{
    if es.len() == 0 {
        Seq::empty()
    } else {
        let pre = visible_names(es.drop_last());
        if is_hidden(es.last().name@) {
            pre
        } else {
            pre.push(es.last().name@)
        }
    }
}

/// The bare names of everything installed under a target: for a group its
/// visible children, for any other visible entry its own name.
pub open spec fn installed_names(es: Seq<Entry>) -> Seq<Seq<char>>
    decreases es.len(),
{
    if es.len() == 0 {
        Seq::empty()
    } else {
        let pre = installed_names(es.drop_last());
        if is_hidden(es.last().name@) {
            pre
        } else if is_group(es.last().node) {
            pre + visible_names(children(es.last().node))
        } else {
            pre.push(es.last().name@)
        }
    }
}

/// An entry is a flat skill of the virtual group `g`.
pub open spec fn in_virtual_group(e: Entry, g: Seq<char>) -> bool {
    !is_hidden(e.name@) && !is_group(e.node) && virtual_group(e.node) == g
}

/// The names of the flat skills of the virtual group `g`, in order.
pub open spec fn virtual_members(es: Seq<Entry>, g: Seq<char>) -> Seq<Seq<char>>
    decreases es.len(),
{
    if es.len() == 0 {
        Seq::empty()
    } else {
        let pre = virtual_members(es.drop_last(), g);
        if in_virtual_group(es.last(), g) {
            pre.push(es.last().name@)
        } else {
            pre
        }
    }
}

/// The group inferred for a flat entry.
pub fn inferred_group(n: &Node) -> (r: String)
    ensures
        r@ == virtual_group(*n),
{
    proof {
        reveal_strlit("other");
        assert("other"@ =~= other_text());
    }
    match n {
        Node::Link { target } => match parent_dir_name(target.as_str()) {
            Some(g) => g,
            None => owned("other"),
        },
        _ => owned("other"),
    }
}

/// Appends to `out` the names among `es` that are not hidden.
pub fn push_visible_names(es: &Vec<Entry>, out: &mut Vec<String>)
    ensures
        texts(final(out)@) == texts(old(out)@) + visible_names(es@),
{
    let ghost base = texts(out@);
    let n: usize = es.len();
    let mut i: usize = 0;
    assert(texts(out@) =~= base + visible_names(es@.subrange(0, 0)));
    while i < n
        invariant
            n == es@.len(),
            i <= n,
            texts(out@) == base + visible_names(es@.subrange(0, i as int)),
        decreases n - i,
    {
        proof {
            assert(es@.subrange(0, i + 1).drop_last() =~= es@.subrange(0, i as int));
        }
        if !name_is_hidden(es[i].name.as_str()) {
            let ghost before = out@;
            out.push(es[i].name.clone());
            assert(texts(out@) =~= texts(before).push(es@[i as int].name@));
            assert(texts(out@) =~= base + visible_names(es@.subrange(0, i + 1)));
        }
        i += 1;
    }
    assert(es@.subrange(0, n as int) =~= es@);
}

/// The bare names of everything installed under a target, grouped and flat
/// entries alike, in listing order. Hidden entries are left out.
pub fn installed_skill_names(target: &Vec<Entry>) -> (r: Vec<String>)
    ensures
        texts(r@) == installed_names(target@),
{
    let mut out: Vec<String> = Vec::new();
    let n: usize = target.len();
    let mut i: usize = 0;
    assert(texts(out@) =~= installed_names(target@.subrange(0, 0)));
    while i < n
        invariant
            n == target@.len(),
            i <= n,
            texts(out@) == installed_names(target@.subrange(0, i as int)),
        decreases n - i,
    {
        proof {
            assert(target@.subrange(0, i + 1).drop_last() =~= target@.subrange(0, i as int));
        }
        if !name_is_hidden(target[i].name.as_str()) {
            match &target[i].node {
                Node::Dir { entries } => {
                    if node_is_group(&target[i].node) {
                        push_visible_names(entries, &mut out);
                    } else {
                        let ghost before = out@;
                        out.push(target[i].name.clone());
                        assert(texts(out@) =~= texts(before).push(target@[i as int].name@));
                    }
                },
                _ => {
                    let ghost before = out@;
                    out.push(target[i].name.clone());
                    assert(texts(out@) =~= texts(before).push(target@[i as int].name@));
                },
            }
        }
        i += 1;
    }
    assert(target@.subrange(0, n as int) =~= target@);
    out
}

/// The flat skills whose inferred group is `group_name`, by name and in
/// listing order. Hidden entries and real groups are never among them.
pub fn find_virtual_group_skills(target: &Vec<Entry>, group_name: &str) -> (r: Vec<String>)
    ensures
        texts(r@) == virtual_members(target@, group_name@),
{
    let mut out: Vec<String> = Vec::new();
    let n: usize = target.len();
    let mut i: usize = 0;
    assert(texts(out@) =~= virtual_members(target@.subrange(0, 0), group_name@));
    while i < n
        invariant
            n == target@.len(),
            i <= n,
            texts(out@) == virtual_members(target@.subrange(0, i as int), group_name@),
        decreases n - i,
    {
        proof {
            assert(target@.subrange(0, i + 1).drop_last() =~= target@.subrange(0, i as int));
        }
        if !name_is_hidden(target[i].name.as_str()) && !node_is_group(&target[i].node) {
            let g: String = inferred_group(&target[i].node);
            if same_text(g.as_str(), group_name) {
                let ghost before = out@;
                out.push(target[i].name.clone());
                assert(texts(out@) =~= texts(before).push(target@[i as int].name@));
            }
        }
        i += 1;
    }
    assert(target@.subrange(0, n as int) =~= target@);
    out
}

/// Where an installed skill stands under a target: directly, or in a group.
#[derive(Debug, Clone, PartialEq, Eq)]
pub struct Place {
    pub group: Option<String>,
    pub name: String,
}

/// A place as character sequences.
pub type PlaceText = (Option<Seq<char>>, Seq<char>);

impl View for Place {
    type V = PlaceText;

    open spec fn view(&self) -> PlaceText {
        (
            match self.group {
                Some(g) => Some(g@),
                None => None,
            },
            self.name@,
        )
    }
}

/// The views of the places of a sequence.
pub open spec fn places(v: Seq<Place>) -> Seq<PlaceText> {
    v.map_values(|p: Place| p@)
}

/// The node that stands at a place, if one does.
pub open spec fn node_at(es: Seq<Entry>, pl: PlaceText) -> Option<Node> {
    match pl.0 {
        None => match lookup(es, pl.1) {
            Some(i) => Some(es[i].node),
            None => None,
        },
        Some(g) => match lookup(es, g) {
            Some(i) => match lookup(children(es[i].node), pl.1) {
                Some(k) => Some(children(es[i].node)[k].node),
                None => None,
            },
            None => None,
        },
    }
}

/// A name without one trailing `/`.
pub open spec fn trimmed(name: Seq<char>) -> Seq<char> {
    if name.len() > 0 && name.last() == '/' {
        name.drop_last()
    } else {
        name
    }
}

/// The entry `i` is a real group that holds something called `name`.
pub open spec fn holds(es: Seq<Entry>, name: Seq<char>, i: int) -> bool {
    0 <= i < es.len() && is_group(es[i].node) && has_name(children(es[i].node), name)
}

/// `i` is the first real group that holds something called `name`.
pub open spec fn first_holder(es: Seq<Entry>, name: Seq<char>, i: int) -> bool {
    holds(es, name, i) && forall|j: int| 0 <= j < i ==> !#[trigger] holds(es, name, j)
}

/// Nothing called `name` is installed.
pub open spec fn not_installed(es: Seq<Entry>, name: Seq<char>) -> bool {
    match first_pos(name, '/') {
        Some(c) => node_at(
            es,
            (Some(name.subrange(0, c)), name.subrange(c + 1, name.len() as int)),
        ) is None,
        None => !has_name(es, name) && forall|i: int| !#[trigger] holds(es, name, i),
    }
}

/// The visible children of the group `g` that have a remote origin.
pub open spec fn remote_children(g: Seq<char>, es: Seq<Entry>) -> Seq<PlaceText>
    decreases es.len(),
{
    if es.len() == 0 {
        Seq::empty()
    } else {
        let pre = remote_children(g, es.drop_last());
        if !is_hidden(es.last().name@) && is_remote(es.last().node) {
            pre.push((Some(g), es.last().name@))
        } else {
            pre
        }
    }
}

/// Every skill under a target that has a remote origin: the remote children
/// of each real group, and each flat entry that is remote itself.
pub open spec fn remote_places(es: Seq<Entry>) -> Seq<PlaceText>
    decreases es.len(),
{
    if es.len() == 0 {
        Seq::empty()
    } else {
        let pre = remote_places(es.drop_last());
        if is_hidden(es.last().name@) {
            pre
        } else if is_group(es.last().node) {
            pre + remote_children(es.last().name@, children(es.last().node))
        } else if is_remote(es.last().node) {
            pre.push((None::<Seq<char>>, es.last().name@))
        } else {
            pre
        }
    }
}

/// A name without one trailing `/`.
pub fn trim_separator(name: &str) -> (r: String)
    ensures
        r@ == trimmed(name@),
{
    let n: usize = char_len(name);
    if n > 0 && name.get_char(n - 1) == '/' {
        slice_of(name, 0, n - 1)
    } else {
        owned(name)
    }
}

/// A position under a target: an entry of the target itself, or an entry of
/// one of its directories.
#[derive(Debug, Clone, Copy, PartialEq, Eq, Structural)]
pub struct Slot {
    /// The position of the directory, for an entry inside one.
    pub group: Option<usize>,
    /// The position of the entry in its listing.
    pub index: usize,
}

/// The slot names an entry that exists.
pub open spec fn slot_valid(es: Seq<Entry>, s: Slot) -> bool {
    match s.group {
        None => s.index < es.len(),
        Some(g) => g < es.len() && s.index < children(es[g as int].node).len(),
    }
}

/// The entry in a slot.
pub open spec fn slot_entry(es: Seq<Entry>, s: Slot) -> Entry {
    match s.group {
        None => es[s.index as int],
        Some(g) => children(es[g as int].node)[s.index as int],
    }
}

/// The place that a slot stands for.
pub open spec fn slot_place(es: Seq<Entry>, s: Slot) -> PlaceText {
    match s.group {
        None => (None, es[s.index as int].name@),
        Some(g) => (Some(es[g as int].name@), children(es[g as int].node)[s.index as int].name@),
    }
}

/// `s` is the slot in which the skill called `name` is found. A `group/name`
/// key names its slot itself. A bare name is found directly under the target
/// where an entry has it, else in the first real group that holds it.
pub open spec fn located(es: Seq<Entry>, name: Seq<char>, s: Slot) -> bool {
    match first_pos(name, '/') {
        Some(c) => match s.group {
            Some(g) => named_at(es, name.subrange(0, c), g as int) && named_at(
                children(es[g as int].node),
                name.subrange(c + 1, name.len() as int),
                s.index as int,
            ),
            None => false,
        },
        None => match s.group {
            Some(g) => !has_name(es, name) && first_holder(es, name, g as int) && named_at(
                children(es[g as int].node),
                name,
                s.index as int,
            ),
            None => named_at(es, name, s.index as int),
        },
    }
}

/// Finds the slot of an installed skill by a bare name or by a `group/name`
/// key; `None` exactly where nothing of that name is installed.
pub fn locate(target: &Vec<Entry>, name: &str) -> (r: Option<Slot>)
    ensures
        match r {
            Some(s) => located(target@, name@, s) && slot_valid(target@, s),
            None => not_installed(target@, name@),
        },
{
    match find_from(name, '/', 0) {
        Some(c) => {
            proof {
                lemma_first_pos(name@, '/', c as int);
            }
            let n: usize = char_len(name);
            let g: String = slice_of(name, 0, c);
            let rest: String = slice_of(name, c + 1, n);
            match find_entry(target, g.as_str()) {
                Some(gi) => match &target[gi].node {
                    Node::Dir { entries } => match find_entry(entries, rest.as_str()) {
                        Some(k) => Some(Slot { group: Some(gi), index: k }),
                        None => None,
                    },
                    _ => {
                        assert(!has_name(children(target@[gi as int].node), rest@));
                        None
                    },
                },
                None => None,
            }
        },
        None => {
            assert(!has_char(name@, '/'));
            match find_entry(target, name) {
                Some(i) => {
                    return Some(Slot { group: None, index: i });
                },
                None => {},
            }
            let n: usize = target.len();
            let mut i: usize = 0;
            while i < n
                invariant
                    n == target@.len(),
                    i <= n,
                    first_pos(name@, '/') is None,
                    !has_name(target@, name@),
                    forall|j: int| 0 <= j < i ==> !#[trigger] holds(target@, name@, j),
                decreases n - i,
            {
                match &target[i].node {
                    Node::Dir { entries } => {
                        if node_is_group(&target[i].node) {
                            match find_entry(entries, name) {
                                Some(k) => {
                                    assert(first_holder(target@, name@, i as int));
                                    return Some(Slot { group: Some(i), index: k });
                                },
                                None => {},
                            }
                        }
                    },
                    _ => {},
                }
                i += 1;
            }
            None
        },
    }
}

/// The place that a slot stands for.
pub fn place_of(target: &Vec<Entry>, s: Slot) -> (r: Place)
    requires
        slot_valid(target@, s),
    ensures
        r@ == slot_place(target@, s),
{
    match s.group {
        None => Place { group: None, name: target[s.index].name.clone() },
        Some(g) => match &target[g].node {
            Node::Dir { entries } => Place {
                group: Some(target[g].name.clone()),
                name: entries[s.index].name.clone(),
            },
            _ => Place { group: None, name: String::new() },
        },
    }
}

/// The node in a slot.
pub fn node_in<'a>(target: &'a Vec<Entry>, s: Slot) -> (r: &'a Node)
    requires
        slot_valid(target@, s),
    ensures
        *r == slot_entry(target@, s).node,
{
    match s.group {
        None => &target[s.index].node,
        Some(g) => match &target[g].node {
            Node::Dir { entries } => &entries[s.index].node,
            _ => &target[g].node,
        },
    }
}

/// Finds an installed skill by a bare name or by a `group/name` key, and
/// gives its place; `None` exactly where nothing of that name is installed.
pub fn find_installed_skill(target: &Vec<Entry>, name: &str) -> (r: Option<Place>)
    ensures
        match r {
            Some(pl) => exists|s: Slot| #[trigger]
                located(target@, name@, s) && pl@ == slot_place(target@, s),
            None => not_installed(target@, name@),
        },
{
    match locate(target, name) {
        Some(s) => Some(place_of(target, s)),
        None => None,
    }
}

/// The remote members of the real group called `name`; none where there is
/// no such group.
pub open spec fn group_remote_members(es: Seq<Entry>, name: Seq<char>) -> Seq<PlaceText> {
    match lookup(es, name) {
        Some(i) => if is_group(es[i].node) {
            remote_children(name, children(es[i].node))
        } else {
            Seq::empty()
        },
        None => Seq::empty(),
    }
}

/// What is found in a slot is installed.
pub proof fn lemma_found_is_installed(es: Seq<Entry>, name: Seq<char>, s: Slot)
    requires
        located(es, name, s),
    ensures
        !not_installed(es, name),
{
    match first_pos(name, '/') {
        Some(c) => {
            let g = name.subrange(0, c);
            let rest = name.subrange(c + 1, name.len() as int);
            lemma_lookup(es, g, s.group.unwrap() as int);
            lemma_lookup(children(es[s.group.unwrap() as int].node), rest, s.index as int);
        },
        None => {
            if s.group is Some {
                assert(holds(es, name, s.group.unwrap() as int));
            }
        },
    }
}

/// The entries of a node can be counted.
pub proof fn lemma_children_fit(n: Node)
    ensures
        children(n).len() <= usize::MAX,
{
    match n {
        Node::Dir { entries } => {
            vstd::std_specs::vec::axiom_spec_len(&entries);
        },
        _ => {},
    }
}

/// Where some real group holds a name, a first one does.
pub proof fn lemma_first_holder_exists(es: Seq<Entry>, name: Seq<char>, k: int)
    requires
        holds(es, name, k),
    ensures
        exists|i: int| first_holder(es, name, i),
    decreases k,
{
    if exists|j: int| 0 <= j < k && #[trigger] holds(es, name, j) {
        let j = choose|j: int| 0 <= j < k && #[trigger] holds(es, name, j);
        lemma_first_holder_exists(es, name, j);
    } else {
        assert(first_holder(es, name, k));
    }
}

/// What is installed under a target is found in a slot, and a slot in which
/// a name is found exists.
pub proof fn lemma_installed_is_found(es: Seq<Entry>, name: Seq<char>)
    requires
        es.len() <= usize::MAX,
        !not_installed(es, name),
    ensures
        exists|s: Slot| located(es, name, s),
        forall|s: Slot| located(es, name, s) ==> slot_valid(es, s),
{
    match first_pos(name, '/') {
        Some(c) => {
            let g = name.subrange(0, c);
            let rest = name.subrange(c + 1, name.len() as int);
            let i = lookup(es, g).unwrap();
            let w = choose|w: int| 0 <= w < es.len() && (#[trigger] es[w]).name@ == g;
            lemma_first_named(es, g, w);
            let kids = children(es[i].node);
            lemma_children_fit(es[i].node);
            let k = lookup(kids, rest).unwrap();
            let v = choose|v: int| 0 <= v < kids.len() && (#[trigger] kids[v]).name@ == rest;
            lemma_first_named(kids, rest, v);
            assert(located(es, name, Slot { group: Some(i as usize), index: k as usize }));
        },
        None => {
            if has_name(es, name) {
                let w = choose|w: int| 0 <= w < es.len() && (#[trigger] es[w]).name@ == name;
                lemma_first_named(es, name, w);
                let i = lookup(es, name).unwrap();
                assert(located(es, name, Slot { group: None, index: i as usize }));
            } else {
                let h = choose|h: int| #[trigger] holds(es, name, h);
                lemma_first_holder_exists(es, name, h);
                let i = choose|i: int| first_holder(es, name, i);
                let kids = children(es[i].node);
                lemma_children_fit(es[i].node);
                let v = choose|v: int| 0 <= v < kids.len() && (#[trigger] kids[v]).name@ == name;
                lemma_first_named(kids, name, v);
                let k = lookup(kids, name).unwrap();
                assert(located(es, name, Slot { group: Some(i as usize), index: k as usize }));
            }
        },
    }
}

/// A name is found in one slot at most.
pub proof fn lemma_located_once(es: Seq<Entry>, name: Seq<char>, a: Slot, b: Slot)
    requires
        located(es, name, a),
        located(es, name, b),
    ensures
        a == b,
{
    match first_pos(name, '/') {
        Some(c) => {
            let g = name.subrange(0, c);
            let rest = name.subrange(c + 1, name.len() as int);
            lemma_lookup(es, g, a.group.unwrap() as int);
            lemma_lookup(es, g, b.group.unwrap() as int);
            let kids = children(es[a.group.unwrap() as int].node);
            lemma_lookup(kids, rest, a.index as int);
            lemma_lookup(kids, rest, b.index as int);
        },
        None => {
            if a.group is None && b.group is None {
                lemma_lookup(es, name, a.index as int);
                lemma_lookup(es, name, b.index as int);
            } else if a.group is Some && b.group is Some {
                let i = a.group.unwrap() as int;
                let j = b.group.unwrap() as int;
                if i < j {
                    assert(!holds(es, name, i));
                }
                if j < i {
                    assert(!holds(es, name, j));
                }
                let kids = children(es[i].node);
                lemma_lookup(kids, name, a.index as int);
                lemma_lookup(kids, name, b.index as int);
            } else if a.group is None {
                assert(has_name(es, name));
            } else {
                assert(has_name(es, name));
            }
        },
    }
}

/// What an update of the name `nm` is to work on.
///
/// A bare name of a real group with remote members stands for those members.
/// Otherwise the name stands for one skill: where nothing of that name is
/// installed there is no target; where it is installed and remote, it is the
/// one target; where it is installed and not remote, the update is refused
/// as not updatable.
pub open spec fn update_targets(es: Seq<Entry>, nm: Seq<char>) -> Result<
    Seq<PlaceText>,
    SkillError,
> {
    if first_pos(nm, '/') is None && group_remote_members(es, nm).len() > 0 {
        Ok(group_remote_members(es, nm))
    } else if not_installed(es, nm) {
        Ok(Seq::empty())
    } else {
        let s = choose|s: Slot| located(es, nm, s);
        if is_remote(slot_entry(es, s).node) {
            Ok(seq![slot_place(es, s)])
        } else {
            Err(SkillError::NotUpdatable)
        }
    }
}

/// What an update of `name` is to work on, as `update_targets` says it of
/// the name without one trailing `/`.
pub fn find_update_targets(target: &Vec<Entry>, name: &str) -> (r: Result<Vec<Place>, SkillError>)
    ensures
        match r {
            Ok(v) => update_targets(target@, trimmed(name@)) == Ok::<Seq<PlaceText>, SkillError>(
                places(v@),
            ),
            Err(e) => update_targets(target@, trimmed(name@)) == Err::<Seq<PlaceText>, SkillError>(
                e,
            ),
        },
{
    let nm: String = trim_separator(name);
    let slash: Option<usize> = find_from(nm.as_str(), '/', 0);
    let bare: bool = slash.is_none();
    proof {
        match slash {
            None => {
                assert(!has_char(nm@, '/'));
            },
            Some(c) => {
                lemma_first_pos(nm@, '/', c as int);
            },
        }
    }
    if bare {
        match find_entry(target, nm.as_str()) {
            Some(i) => match &target[i].node {
                Node::Dir { entries } => {
                    if node_is_group(&target[i].node) {
                        let mut members: Vec<Place> = Vec::new();
                        assert(places(members@) =~= Seq::<PlaceText>::empty());
                        push_remote_children(nm.as_str(), entries, &mut members);
                        assert(places(members@) =~= group_remote_members(target@, nm@));
                        if members.len() > 0 {
                            return Ok(members);
                        }
                    }
                },
                _ => {},
            },
            None => {},
        }
    }
    match locate(target, nm.as_str()) {
        Some(s) => {
            proof {
                lemma_found_is_installed(target@, nm@, s);
                let c = choose|c: Slot| located(target@, nm@, c);
                lemma_located_once(target@, nm@, s, c);
            }
            if node_is_remote(node_in(target, s)) {
                let mut one: Vec<Place> = Vec::new();
                one.push(place_of(target, s));
                assert(places(one@) =~= seq![slot_place(target@, s)]);
                Ok(one)
            } else {
                Err(SkillError::NotUpdatable)
            }
        },
        None => {
            let none: Vec<Place> = Vec::new();
            assert(places(none@) =~= Seq::<PlaceText>::empty());
            Ok(none)
        },
    }
}

/// Appends to `out` the visible children of the group `group` that have a
/// remote origin.
pub fn push_remote_children(group: &str, es: &Vec<Entry>, out: &mut Vec<Place>)
    ensures
        places(final(out)@) == places(old(out)@) + remote_children(group@, es@),
{
    let ghost base = places(out@);
    let n: usize = es.len();
    let mut i: usize = 0;
    assert(places(out@) =~= base + remote_children(group@, es@.subrange(0, 0)));
    while i < n
        invariant
            n == es@.len(),
            i <= n,
            places(out@) == base + remote_children(group@, es@.subrange(0, i as int)),
        decreases n - i,
    {
        proof {
            assert(es@.subrange(0, i + 1).drop_last() =~= es@.subrange(0, i as int));
        }
        if !name_is_hidden(es[i].name.as_str()) && node_is_remote(&es[i].node) {
            let ghost before = out@;
            let pl = Place { group: Some(owned(group)), name: es[i].name.clone() };
            out.push(pl);
            assert(places(out@) =~= places(before).push((Some(group@), es@[i as int].name@)));
            assert(places(out@) =~= base + remote_children(group@, es@.subrange(0, i + 1)));
        }
        i += 1;
    }
    assert(es@.subrange(0, n as int) =~= es@);
}

/// Every skill under a target that carries the record of a remote origin, in
/// listing order. Only these can be updated.
pub fn find_all_remote_skills(target: &Vec<Entry>) -> (r: Vec<Place>)
    ensures
        places(r@) == remote_places(target@),
{
    let mut out: Vec<Place> = Vec::new();
    let n: usize = target.len();
    let mut i: usize = 0;
    assert(places(out@) =~= remote_places(target@.subrange(0, 0)));
    while i < n
        invariant
            n == target@.len(),
            i <= n,
            places(out@) == remote_places(target@.subrange(0, i as int)),
        decreases n - i,
    {
        proof {
            assert(target@.subrange(0, i + 1).drop_last() =~= target@.subrange(0, i as int));
        }
        if !name_is_hidden(target[i].name.as_str()) {
            match &target[i].node {
                Node::Dir { entries } => {
                    if node_is_group(&target[i].node) {
                        push_remote_children(target[i].name.as_str(), entries, &mut out);
                    } else if node_is_remote(&target[i].node) {
                        let ghost before = out@;
                        out.push(Place { group: None, name: target[i].name.clone() });
                        assert(places(out@) =~= places(before).push(
                            (None::<Seq<char>>, target@[i as int].name@),
                        ));
                    }
                },
                _ => {},
            }
        }
        i += 1;
    }
    assert(target@.subrange(0, n as int) =~= target@);
    out
}

/// Where a skill was found.
#[derive(Debug, Clone, PartialEq, Eq)]
pub enum Found {
    /// Installed under the local target.
    Local(Place),
    /// Installed under the global target.
    Global(Place),
    /// In the source library, in this group.
    Source(String),
}

/// Finds a skill by name: under the local target first, then under the
/// global one, then in the source library where there is one. A skill that
/// none of them has is not found.
pub fn which(
    name: &str,
    local: &Vec<Entry>,
    global: &Vec<Entry>,
    source: Option<&Vec<Entry>>,
) -> (r: Result<Found, SkillError>)
    ensures
        match r {
            Ok(Found::Local(pl)) => exists|s: Slot| #[trigger]
                located(local@, name@, s) && pl@ == slot_place(local@, s),
            Ok(Found::Global(pl)) => not_installed(local@, name@) && exists|s: Slot| #[trigger]
                located(global@, name@, s) && pl@ == slot_place(global@, s),
            Ok(Found::Source(g)) => not_installed(local@, name@) && not_installed(global@, name@)
                && source is Some && exists|k: int|
                first_group_with(source.unwrap()@, name@, k) && #[trigger] group_names(
                    source.unwrap()@,
                )[k] == g@,
            Err(e) => e == SkillError::NotFound && not_installed(local@, name@) && not_installed(
                global@,
                name@,
            ) && (source is Some ==> forall|k: int|
                0 <= k < group_names(source.unwrap()@).len() ==> !group_holds(
                    source.unwrap()@,
                    #[trigger] group_names(source.unwrap()@)[k],
                    name@,
                )),
        },
{
    match find_installed_skill(local, name) {
        Some(pl) => {
            return Ok(Found::Local(pl));
        },
        None => {},
    }
    match find_installed_skill(global, name) {
        Some(pl) => {
            return Ok(Found::Global(pl));
        },
        None => {},
    }
    match source {
        Some(root) => match find_skill_in_source(root, name) {
            Some(g) => Ok(Found::Source(g)),
            None => Err(SkillError::NotFound),
        },
        None => Err(SkillError::NotFound),
    }
}

/// Every visible name of a listing is among its visible names.
pub proof fn lemma_visible_names_hold(es: Seq<Entry>, j: int)
    requires
        0 <= j < es.len(),
        !is_hidden(es[j].name@),
    ensures
        visible_names(es).contains(es[j].name@),
    decreases es.len(),
{
    let pre = es.drop_last();
    if j < es.len() - 1 {
        lemma_visible_names_hold(pre, j);
        let k = choose|k: int| 0 <= k < visible_names(pre).len() && visible_names(pre)[k] == pre[j].name@;
        assert(visible_names(es)[k] == es[j].name@);
    } else {
        assert(visible_names(es)[visible_names(es).len() - 1] == es[j].name@);
    }
}

/// What an entry adds to the installed names follows from its kind: a
/// visible entry that is a real group adds the visible names of its
/// children, and every other visible entry adds its own name.
pub proof fn law_installed_names_follow_the_kind(es: Seq<Entry>, i: int)
    requires
        0 <= i < es.len(),
        !is_hidden(es[i].name@),
    ensures
        !is_group(es[i].node) ==> installed_names(es).contains(es[i].name@),
        is_group(es[i].node) ==> forall|j: int|
            0 <= j < children(es[i].node).len() && !is_hidden(
                (#[trigger] children(es[i].node)[j]).name@,
            ) ==> installed_names(es).contains(children(es[i].node)[j].name@),
    decreases es.len(),
{
    let pre = es.drop_last();
    let all = installed_names(es);
    let before = installed_names(pre);
    assert(forall|k: int| 0 <= k < before.len() ==> all[k] == before[k]);
    if i < es.len() - 1 {
        assert(pre[i] == es[i]);
        law_installed_names_follow_the_kind(pre, i);
        if !is_group(es[i].node) {
            let k = choose|k: int| 0 <= k < before.len() && before[k] == es[i].name@;
            assert(all[k] == es[i].name@);
        } else {
            let kids = children(es[i].node);
            assert forall|j: int| 0 <= j < kids.len() && !is_hidden((#[trigger] kids[j]).name@)
                implies all.contains(kids[j].name@) by {
                assert(before.contains(kids[j].name@));
                let k = choose|k: int| 0 <= k < before.len() && before[k] == kids[j].name@;
                assert(all[k] == kids[j].name@);
            }
        }
    } else {
        if !is_group(es[i].node) {
            assert(all[all.len() - 1] == es[i].name@);
        } else {
            let kids = children(es[i].node);
            assert forall|j: int| 0 <= j < kids.len() && !is_hidden((#[trigger] kids[j]).name@)
                implies all.contains(kids[j].name@) by {
                lemma_visible_names_hold(kids, j);
                let k = choose|k: int|
                    0 <= k < visible_names(kids).len() && visible_names(kids)[k] == kids[j].name@;
                assert(all[before.len() + k] == kids[j].name@);
            }
        }
    }
}

} // verus!
