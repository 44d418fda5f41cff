//! What is shown of a library and of the targets.

use vstd::prelude::*;
use vstd::string::*;
use crate::installed::{inferred_group, Place, PlaceText, virtual_group};
use crate::library::{all_skills, every_skill};
use crate::text::{owned, same_text};
use crate::tree::{
    children, Entry, find_entry, holds_text, is_group, is_hidden, lookup, meta_name, name_is_hidden,
    Node, node_is_group, pair_texts, texts,
};
use crate::update::Scope;

verus! {

/// Where an installed entry comes from.
#[derive(Debug, Clone, PartialEq, Eq)]
pub enum Origin {
    /// A link into a local library, with the path it points to.
    Symlinked { target: String },
    /// A copy of a remote skill, with the text of its record of origin.
    Copied { record: String },
    /// Anything else.
    Plain,
}

/// An origin as character sequences.
pub ghost enum OriginText {
    Symlinked(Seq<char>),
    Copied(Seq<char>),
    Plain,
}

impl View for Origin {
    type V = OriginText;

    open spec fn view(&self) -> OriginText {
        match self {
            Origin::Symlinked { target } => OriginText::Symlinked(target@),
            Origin::Copied { record } => OriginText::Copied(record@),
            Origin::Plain => OriginText::Plain,
        }
    }
}

/// One installed skill, as it is listed.
#[derive(Debug, Clone, PartialEq, Eq)]
pub struct Listed {
    pub scope: Scope,
    pub place: Place,
    /// The group it is shown under: its real group, or the one inferred.
    pub shown_group: String,
    pub origin: Origin,
}

/// A listed skill as a mathematical value.
pub ghost struct ListedText {
    pub scope: Scope,
    pub place: PlaceText,
    pub shown_group: Seq<char>,
    pub origin: OriginText,
}

impl View for Listed {
    type V = ListedText;

    open spec fn view(&self) -> ListedText {
        ListedText {
            scope: self.scope,
            place: self.place@,
            shown_group: self.shown_group@,
            origin: self.origin@,
        }
    }
}

/// Whether a skill of the library is installed, and where.
#[derive(Debug, Clone, Copy, PartialEq, Eq, Structural)]
pub enum Status {
    Local,
    Global,
    Available,
}

/// The views of the listed skills of a sequence.
pub open spec fn listed_texts(v: Seq<Listed>) -> Seq<ListedText> {
    v.map_values(|l: Listed| l@)
}

/// Where a node comes from: a link is symlinked; a directory with a record
/// file is a copy; a directory whose record is no file is a copy with an
/// empty record; anything else is plain.
pub open spec fn origin_of(n: Node) -> OriginText {
    match n {
        Node::Link { target } => OriginText::Symlinked(target@),
        Node::Dir { entries } => match lookup(entries@, meta_name()) {
            Some(k) => match entries@[k].node {
                Node::File { content } => OriginText::Copied(content@),
                _ => OriginText::Copied(Seq::empty()),
            },
            None => OriginText::Plain,
        },
        Node::File { content } => OriginText::Plain,
    }
}

/// The visible children of the group `g`, as they are listed.
pub open spec fn listed_children(scope: Scope, g: Seq<char>, es: Seq<Entry>) -> Seq<ListedText>
    decreases es.len(),
{
    if es.len() == 0 {
        Seq::empty()
    } else {
        let pre = listed_children(scope, g, es.drop_last());
        if is_hidden(es.last().name@) {
            pre
        } else {
            pre.push(
                ListedText {
                    scope,
                    place: (Some(g), es.last().name@),
                    shown_group: g,
                    origin: origin_of(es.last().node),
                },
            )
        }
    }
}

/// Everything installed under a target, as it is listed: the visible
/// children of each real group under the group's name, and each flat entry
/// under its inferred group. Hidden entries are left out.
pub open spec fn listed_under(scope: Scope, es: Seq<Entry>) -> Seq<ListedText>
    decreases es.len(),
{
    if es.len() == 0 {
        Seq::empty()
    } else {
        let pre = listed_under(scope, es.drop_last());
        if is_hidden(es.last().name@) {
            pre
        } else if is_group(es.last().node) {
            pre + listed_children(scope, es.last().name@, children(es.last().node))
        } else {
            pre.push(
                ListedText {
                    scope,
                    place: (None, es.last().name@),
                    shown_group: virtual_group(es.last().node),
                    origin: origin_of(es.last().node),
                },
            )
        }
    }
}

/// Some element of `xs` stands at the place `pl`.
pub open spec fn place_seen(xs: Seq<ListedText>, pl: PlaceText) -> bool {
    exists|i: int| 0 <= i < xs.len() && (#[trigger] xs[i]).place == pl
}

/// `xs` with each place once: the first element of a place stays.
pub open spec fn first_seen(xs: Seq<ListedText>) -> Seq<ListedText>
    decreases xs.len(),
{
    if xs.len() == 0 {
        Seq::empty()
    } else {
        let pre = first_seen(xs.drop_last());
        if place_seen(pre, xs.last().place) {
            pre
        } else {
            pre.push(xs.last())
        }
    }
}

/// The status of a skill name: local where the local target has it, else
/// global where the global target has it, else available.
pub open spec fn status_of(name: Seq<char>, local: Seq<Seq<char>>, global: Seq<Seq<char>>) -> Status {
    if local.contains(name) {
        Status::Local
    } else if global.contains(name) {
        Status::Global
    } else {
        Status::Available
    }
}

/// Where a node comes from.
pub fn node_origin(n: &Node) -> (r: Origin)
    ensures
        r@ == origin_of(*n),
{
    proof {
        reveal_strlit(".remote-source");
        assert(".remote-source"@ =~= meta_name());
    }
    match n {
        Node::Link { target } => Origin::Symlinked { target: target.clone() },
        Node::Dir { entries } => match find_entry(entries, ".remote-source") {
            Some(k) => match &entries[k].node {
                Node::File { content } => Origin::Copied { record: content.clone() },
                _ => {
                    let record: String = String::new();
                    assert(record@ =~= Seq::<char>::empty());
                    Origin::Copied { record }
                },
            },
            None => Origin::Plain,
        },
        Node::File { content: _ } => Origin::Plain,
    }
}

/// Appends to `out` the visible children of the group `group`, as they are
/// listed.
fn list_children(scope: Scope, group: &str, es: &Vec<Entry>, out: &mut Vec<Listed>)
    ensures
        listed_texts(final(out)@) == listed_texts(old(out)@) + listed_children(scope, group@, es@),
{
    let ghost base = listed_texts(out@);
    let n: usize = es.len();
    let mut i: usize = 0;
    assert(listed_texts(out@) =~= base + listed_children(scope, group@, es@.subrange(0, 0)));
    while i < n
        invariant
            n == es@.len(),
            i <= n,
            listed_texts(out@) == base + listed_children(scope, group@, es@.subrange(0, i as int)),
        decreases n - i,
    {
        proof {
            assert(es@.subrange(0, i + 1).drop_last() =~= es@.subrange(0, i as int));
        }
        if !name_is_hidden(es[i].name.as_str()) {
            let ghost before = out@;
            let item = Listed {
                scope,
                place: Place { group: Some(owned(group)), name: es[i].name.clone() },
                shown_group: owned(group),
                origin: node_origin(&es[i].node),
            };
            out.push(item);
            assert(listed_texts(out@) =~= listed_texts(before).push(item@));
            assert(listed_texts(out@) =~= base + listed_children(
                scope,
                group@,
                es@.subrange(0, i + 1),
            ));
        }
        i += 1;
    }
    assert(es@.subrange(0, n as int) =~= es@);
}

/// Appends to `out` everything that is installed under a target, as it is
/// listed, in listing order.
pub fn list_skills_in_dir(target: &Vec<Entry>, scope: Scope, out: &mut Vec<Listed>)
    ensures
        listed_texts(final(out)@) == listed_texts(old(out)@) + listed_under(scope, target@),
{
    let ghost base = listed_texts(out@);
    let n: usize = target.len();
    let mut i: usize = 0;
    assert(listed_texts(out@) =~= base + listed_under(scope, target@.subrange(0, 0)));
    while i < n
        invariant
            n == target@.len(),
            i <= n,
            listed_texts(out@) == base + listed_under(scope, target@.subrange(0, i as int)),
        decreases n - i,
    {
        proof {
            assert(target@.subrange(0, i + 1).drop_last() =~= target@.subrange(0, i as int));
        }
        let ghost before = out@;
        if !name_is_hidden(target[i].name.as_str()) {
            let mut grouped: bool = false;
            match &target[i].node {
                Node::Dir { entries } => {
                    if node_is_group(&target[i].node) {
                        list_children(scope, target[i].name.as_str(), entries, out);
                        grouped = true;
                    }
                },
                _ => {},
            }
            if !grouped {
                let item = Listed {
                    scope,
                    place: Place { group: None, name: target[i].name.clone() },
                    shown_group: inferred_group(&target[i].node),
                    origin: node_origin(&target[i].node),
                };
                out.push(item);
                assert(listed_texts(out@) =~= listed_texts(before).push(item@));
            }
        }
        assert(listed_texts(out@) =~= base + listed_under(scope, target@.subrange(0, i + 1)));
        i += 1;
    }
    assert(target@.subrange(0, n as int) =~= target@);
}

/// Whether some element of `xs` stands at the place of `x`.
fn seen_before(xs: &Vec<Listed>, x: &Listed) -> (r: bool)
    ensures
        r == place_seen(listed_texts(xs@), x@.place),
{
    let n: usize = xs.len();
    let mut i: usize = 0;
    while i < n
        invariant
            n == xs@.len(),
            i <= n,
            forall|j: int| 0 <= j < i ==> (#[trigger] listed_texts(xs@)[j]).place != x@.place,
        decreases n - i,
    {
        let same_group: bool = match (&xs[i].place.group, &x.place.group) {
            (Some(a), Some(b)) => same_text(a.as_str(), b.as_str()),
            (None, None) => true,
            _ => false,
        };
        if same_group && same_text(xs[i].place.name.as_str(), x.place.name.as_str()) {
            assert(listed_texts(xs@)[i as int].place == x@.place);
            return true;
        }
        assert(listed_texts(xs@)[i as int].place != x@.place);
        i += 1;
    }
    false
}

/// What is installed under both targets, each place once: the local target
/// is listed first, and what was seen first stays, so a place that both
/// targets have is shown with its local entry.
pub fn list_installed(local: &Vec<Entry>, global: &Vec<Entry>) -> (r: Vec<Listed>)
    ensures
        listed_texts(r@) == first_seen(
            listed_under(Scope::Local, local@) + listed_under(Scope::Global, global@),
        ),
{
    let mut every: Vec<Listed> = Vec::new();
    assert(listed_texts(every@) =~= Seq::<ListedText>::empty());
    list_skills_in_dir(local, Scope::Local, &mut every);
    list_skills_in_dir(global, Scope::Global, &mut every);
    let ghost all = every@;
    assert(listed_texts(all) =~= listed_under(Scope::Local, local@) + listed_under(
        Scope::Global,
        global@,
    ));
    let mut out: Vec<Listed> = Vec::new();
    let ghost mut k: int = 0;
    assert(listed_texts(all).subrange(0, 0) =~= Seq::<ListedText>::empty());
    assert(listed_texts(out@) =~= first_seen(listed_texts(all).subrange(0, 0)));
    assert(every@ =~= all.subrange(0, all.len() as int));
    while every.len() > 0
        invariant
            0 <= k <= all.len(),
            every@ == all.subrange(k, all.len() as int),
            listed_texts(out@) == first_seen(listed_texts(all).subrange(0, k)),
        decreases every@.len(),
    {
        proof {
            assert(every@[0] == all[k]);
            assert(every@.remove(0) =~= all.subrange(k + 1, all.len() as int));
            assert(listed_texts(all).subrange(0, k + 1).drop_last() =~= listed_texts(
                all,
            ).subrange(0, k));
            assert(listed_texts(all).subrange(0, k + 1).last() == all[k]@);
        }
        let x: Listed = every.remove(0);
        if !seen_before(&out, &x) {
            let ghost before = out@;
            out.push(x);
            assert(listed_texts(out@) =~= listed_texts(before).push(all[k]@));
        }
        proof {
            k = k + 1;
        }
    }
    assert(listed_texts(all).subrange(0, all.len() as int) =~= listed_texts(all));
    out
}

/// The status of a skill name.
pub fn skill_status(name: &str, local_installed: &Vec<String>, global_installed: &Vec<String>) -> (r:
    Status)
    ensures
        r == status_of(name@, texts(local_installed@), texts(global_installed@)),
{
    if holds_text(local_installed, name) {
        Status::Local
    } else if holds_text(global_installed, name) {
        Status::Global
    } else {
        Status::Available
    }
}

/// Every skill of the library with its status, in the library's order.
pub fn list(source: &Vec<Entry>, local_installed: &Vec<String>, global_installed: &Vec<String>) -> (r:
    Vec<(String, String, Status)>)
    ensures
        r@.len() == every_skill(source@).len(),
        forall|i: int|
            0 <= i < r@.len() ==> (#[trigger] r@[i]).0@ == every_skill(source@)[i].0 && r@[i].1@
                == every_skill(source@)[i].1 && r@[i].2 == status_of(
                every_skill(source@)[i].1,
                texts(local_installed@),
                texts(global_installed@),
            ),
{
    let every: Vec<(String, String)> = all_skills(source);
    let n: usize = every.len();
    let mut out: Vec<(String, String, Status)> = Vec::new();
    let mut i: usize = 0;
    while i < n
        invariant
            n == every@.len(),
            pair_texts(every@) == every_skill(source@),
            i <= n,
            out@.len() == i,
            forall|j: int|
                0 <= j < i ==> (#[trigger] out@[j]).0@ == every_skill(source@)[j].0 && out@[j].1@
                    == every_skill(source@)[j].1 && out@[j].2 == status_of(
                    every_skill(source@)[j].1,
                    texts(local_installed@),
                    texts(global_installed@),
                ),
        decreases n - i,
    {
        assert(pair_texts(every@)[i as int] == (every@[i as int].0@, every@[i as int].1@));
        let status: Status = skill_status(every[i].1.as_str(), local_installed, global_installed);
        out.push((every[i].0.clone(), every[i].1.clone(), status));
        i += 1;
    }
    out
}

} // verus!
