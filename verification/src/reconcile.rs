//! Installing skills into a target.
//!
//! A skill is always written in the grouped layout: `target/group/name`. A
//! local install places a link to the skill in the source library; a remote
//! install places a copy of what was fetched, with a record of its origin.

use vstd::prelude::*;
use vstd::string::*;
use crate::error::SkillError;
use crate::installed::{Place, PlaceText};
use crate::library::{
    all_skills, all_text, declared_at, every_skill, find_skill_in_source, first_group_with,
    group_holds, group_names, Profile, resolve_profile, skill_at,
};
use crate::paths::{last_name, last_name_of, parent_dir_name, parent_name};
use crate::remote::{format_spec, RemoteSpec, spec_format, SpecText};
use crate::text::owned;
use crate::tree::{
    children, Entry, find_entry, is_remote, is_skill, lemma_t_pos, lemma_t_pos_is_first,
    lemma_view_absent, lemma_view_entries, lemma_view_pos, lemma_view_push, lemma_view_remove,
    lemma_view_update, Listing, lookup, meta_name, Node, node_is_skill, pair_texts, t_first, t_has,
    t_kids, t_pos, t_put, t_without, Tree, view_entries, view_node,
};

verus! {

/// How many skills a batch installed and how many it skipped.
#[derive(Debug, Clone, Copy, PartialEq, Eq, Structural)]
pub struct Tally {
    pub installed: usize,
    pub skipped: usize,
}

/// Why nothing can be placed at `g/name`, if anything stands in the way: an
/// entry `g` that is no directory, or, unless `force` is set, an entry that
/// already has the name.
pub open spec fn t_put_error(t: Listing, g: Seq<char>, name: Seq<char>, force: bool) -> Option<
    SkillError,
> {
    match t_pos(t, g) {
        Some(i) => if !(t[i].1 is Dir) {
            Some(SkillError::IoFailure)
        } else if !force && t_has(t_kids(t[i].1), name) {
            Some(SkillError::Conflict)
        } else {
            None
        },
        None => None,
    }
}

/// The path of a skill in a library: the library's path, the group and the
/// name, joined by `/`.
pub open spec fn link_path(base: Seq<char>, g: Seq<char>, name: Seq<char>) -> Seq<char> {
    base + seq!['/'] + g + seq!['/'] + name
}

/// The path of a skill in a library.
pub fn skill_path(base: &str, group: &str, name: &str) -> (r: String)
    ensures
        r@ == link_path(base@, group@, name@),
{
    proof {
        reveal_strlit("/");
        assert("/"@ =~= seq!['/']);
    }
    let mut out: String = String::from_str(base);
    out.append("/");
    out.append(group);
    out.append("/");
    out.append(name);
    out
}

/// Places `node` at `group/name` under the target.
///
/// Where nothing stands in the way, the group directory is created if it is
/// missing, what stood under the name is removed, and the node becomes the
/// last entry of the group. Otherwise the target is left as it was: with
/// `IoFailure` where `group` names something that is no directory, with
/// `Conflict` where the name is taken and `force` is not set.
pub fn install_at(target: &mut Vec<Entry>, group: &str, name: &str, node: Node, force: bool) -> (r:
    Result<(), SkillError>)
    ensures
        match r {
            Ok(_) => t_put_error(view_entries(old(target)@), group@, name@, force) is None
                && view_entries(final(target)@) == t_put(
                view_entries(old(target)@),
                group@,
                name@,
                view_node(node),
            ),
            Err(e) => t_put_error(view_entries(old(target)@), group@, name@, force) == Some(e)
                && final(target)@ == old(target)@,
        },
{
    let ghost es0 = target@;
    let ghost t0 = view_entries(target@);
    match find_entry(target, group) {
        None => {
            let mut kids: Vec<Entry> = Vec::new();
            kids.push(Entry { name: owned(name), node });
            let dir = Entry { name: owned(group), node: Node::Dir { entries: kids } };
            proof {
                lemma_view_absent(es0, group@);
                lemma_view_push(es0, dir);
                lemma_view_push(Seq::<Entry>::empty(), kids@[0]);
                assert(kids@ =~= Seq::<Entry>::empty().push(kids@[0]));
                assert(view_entries(kids@) =~= seq![(name@, view_node(node))]);
            }
            target.push(dir);
            Ok(())
        },
        Some(i) => {
            proof {
                lemma_view_pos(es0, group@, i as int);
            }
            match &target[i].node {
                Node::Dir { entries } => {
                    match find_entry(entries, name) {
                        Some(k) => {
                            proof {
                                lemma_view_pos(entries@, name@, k as int);
                            }
                            if !force {
                                return Err(SkillError::Conflict);
                            }
                        },
                        None => {
                            proof {
                                lemma_view_absent(entries@, name@);
                            }
                        },
                    }
                },
                _ => {
                    return Err(SkillError::IoFailure);
                },
            }
            let Entry { name: gname, node: gnode } = target.remove(i);
            match gnode {
                Node::Dir { entries } => {
                    let mut kids: Vec<Entry> = entries;
                    let ghost kids0 = kids@;
                    match find_entry(&kids, name) {
                        Some(k) => {
                            proof {
                                lemma_view_pos(kids0, name@, k as int);
                                lemma_view_remove(kids0, k as int);
                            }
                            kids.remove(k);
                        },
                        None => {
                            proof {
                                lemma_view_absent(kids0, name@);
                            }
                        },
                    }
                    let ghost kids1 = kids@;
                    assert(view_entries(kids1) == t_without(view_entries(kids0), name@));
                    let fresh = Entry { name: owned(name), node };
                    proof {
                        lemma_view_push(kids1, fresh);
                    }
                    kids.push(fresh);
                    let dir = Entry { name: gname, node: Node::Dir { entries: kids } };
                    proof {
                        lemma_view_update(es0, i as int, dir);
                        assert(es0.remove(i as int).insert(i as int, dir) =~= es0.update(
                            i as int,
                            dir,
                        ));
                    }
                    target.insert(i, dir);
                },
                other => {
                    target.insert(i, Entry { name: gname, node: other });
                },
            }
            Ok(())
        },
    }
}

/// Installs one named skill of a local library as a link.
///
/// The skill is looked for in the groups of the library in listing order; the
/// link goes to `target/group/name` and points to the skill's path in the
/// library. Where no group holds the skill it is not found; where something
/// stands in the way the error of `install_at` comes back. On any error the
/// target is left as it was.
pub fn install(
    source: &Vec<Entry>,
    source_path: &str,
    name: &str,
    target: &mut Vec<Entry>,
    force: bool,
) -> (r: Result<String, SkillError>)
    ensures
        match r {
            Ok(g) => (exists|k: int|
                first_group_with(source@, name@, k) && #[trigger] group_names(source@)[k] == g@)
                && t_put_error(view_entries(old(target)@), g@, name@, force) is None
                && view_entries(final(target)@) == t_put(
                view_entries(old(target)@),
                g@,
                name@,
                Tree::Link(link_path(source_path@, g@, name@)),
            ),
            Err(e) => final(target)@ == old(target)@ && if forall|k: int|
                0 <= k < group_names(source@).len() ==> !group_holds(
                    source@,
                    #[trigger] group_names(source@)[k],
                    name@,
                ) {
                e == SkillError::NotFound
            } else {
                exists|k: int|
                    first_group_with(source@, name@, k) && t_put_error(
                        view_entries(old(target)@),
                        #[trigger] group_names(source@)[k],
                        name@,
                        force,
                    ) == Some(e)
            },
        },
{
    match find_skill_in_source(source, name) {
        None => Err(SkillError::NotFound),
        Some(g) => {
            let link = Node::Link { target: skill_path(source_path, g.as_str(), name) };
            match install_at(target, g.as_str(), name, link, force) {
                Ok(_) => Ok(g),
                Err(e) => Err(e),
            }
        },
    }
}

/// The tree of the skill `g/name` of a library; an empty directory where the
/// library holds nothing there.
pub open spec fn skill_tree(source: Seq<Entry>, g: Seq<char>, name: Seq<char>) -> Tree {
    match lookup(source, g) {
        Some(i) => match lookup(children(source[i].node), name) {
            Some(k) => view_node(children(source[i].node)[k].node),
            None => Tree::Dir(Seq::empty()),
        },
        None => Tree::Dir(Seq::empty()),
    }
}

/// A listing with the record of a remote origin written anew: without what
/// it held under the record's name, and with the record as its last entry.
pub open spec fn t_with_meta(kids: Listing, meta: Seq<char>) -> Listing {
    t_without(kids, meta_name()).push((meta_name(), Tree::File(meta)))
}

/// The address of one skill of a repository: the repository's address with
/// the path `g/name`.
pub open spec fn skill_origin(sp: SpecText, g: Seq<char>, name: Seq<char>) -> SpecText {
    SpecText { path: g + seq!['/'] + name, ..sp }
}

/// The address that a batch records, as text.
pub open spec fn origin_text(origin: Option<&RemoteSpec>) -> Option<SpecText> {
    match origin {
        Some(spec) => Some(spec@),
        None => None,
    }
}

/// What a batch places for an item: a link into the library, or a copy of
/// the skill with the record of its origin.
pub open spec fn placed_tree(
    source: Seq<Entry>,
    base: Seq<char>,
    origin: Option<SpecText>,
    item: (Seq<char>, Seq<char>),
) -> Tree {
    match origin {
        None => Tree::Link(link_path(base, item.0, item.1)),
        Some(sp) => Tree::Dir(
            t_with_meta(
                t_kids(skill_tree(source, item.0, item.1)),
                spec_format(skill_origin(sp, item.0, item.1)),
            ),
        ),
    }
}

/// The skill `group/name` of a library, where the library holds one.
pub fn skill_node_at<'a>(source: &'a Vec<Entry>, group: &str, name: &str) -> (r: Option<&'a Node>)
    ensures
        r is Some == skill_at(source@, group@, name@),
        r is Some ==> view_node(*r.unwrap()) == skill_tree(source@, group@, name@),
{
    match find_entry(source, group) {
        Some(i) => match &source[i].node {
            Node::Dir { entries } => match find_entry(entries, name) {
                Some(k) => if node_is_skill(&entries[k].node) {
                    Some(&entries[k].node)
                } else {
                    None
                },
                None => None,
            },
            _ => None,
        },
        None => None,
    }
}

/// The address of one skill of a repository.
pub fn origin_of(spec: &RemoteSpec, group: &str, name: &str) -> (r: RemoteSpec)
    ensures
        r@ == skill_origin(spec@, group@, name@),
{
    proof {
        reveal_strlit("/");
        assert("/"@ =~= seq!['/']);
    }
    let mut path: String = String::from_str(group);
    path.append("/");
    path.append(name);
    RemoteSpec {
        owner: spec.owner.clone(),
        repo: spec.repo.clone(),
        path,
        git_ref: spec.git_ref.clone(),
    }
}

/// A copy of a tree.
pub fn copy_node(n: &Node) -> (r: Node)
    ensures
        view_node(r) == view_node(*n),
    decreases n,
{
    match n {
        Node::File { content } => Node::File { content: content.clone() },
        Node::Link { target } => Node::Link { target: target.clone() },
        Node::Dir { entries } => {
            let mut out: Vec<Entry> = Vec::new();
            let m: usize = entries.len();
            let mut i: usize = 0;
            while i < m
                invariant
                    m == entries@.len(),
                    i <= m,
                    out@.len() == i,
                    *n == (Node::Dir { entries: *entries }),
                    forall|j: int|
                        0 <= j < i ==> (#[trigger] out@[j]).name@ == entries@[j].name@
                            && view_node(out@[j].node) == view_node(entries@[j].node),
                decreases m - i,
            {
                proof {
                    vstd::std_specs::vec::axiom_vec_index_decreases(*entries, i as int);
                    assert(n->entries == *entries);
                    assert(decreases_to!(*n => n->entries));
                }
                let c: Node = copy_node(&entries[i].node);
                out.push(Entry { name: entries[i].name.clone(), node: c });
                i += 1;
            }
            proof {
                lemma_view_entries(out@);
                lemma_view_entries(entries@);
                assert(view_entries(out@) =~= view_entries(entries@));
            }
            Node::Dir { entries: out }
        },
    }
}

/// A copy of a fetched skill with the record of its origin: the skill's
/// entries, without an older record, and the canonical text of `spec` in the
/// record file as the last entry.
pub fn remote_copy(skill: &Node, spec: &RemoteSpec) -> (r: Node)
    ensures
        view_node(r) == Tree::Dir(t_with_meta(t_kids(view_node(*skill)), spec_format(spec@))),
        is_remote(r),
{
    proof {
        reveal_strlit(".remote-source");
        assert(".remote-source"@ =~= meta_name());
    }
    let mut kids: Vec<Entry> = match copy_node(skill) {
        Node::Dir { entries } => entries,
        _ => Vec::new(),
    };
    let ghost kids0 = kids@;
    assert(view_entries(kids0) == t_kids(view_node(*skill))) by {
        assert(view_entries(Seq::<Entry>::empty()) =~= Seq::empty());
    }
    match find_entry(&kids, ".remote-source") {
        Some(k) => {
            proof {
                lemma_view_pos(kids0, meta_name(), k as int);
                lemma_view_remove(kids0, k as int);
            }
            kids.remove(k);
        },
        None => {
            proof {
                lemma_view_absent(kids0, meta_name());
            }
        },
    }
    let record = Entry {
        name: owned(".remote-source"),
        node: Node::File { content: format_spec(spec) },
    };
    proof {
        lemma_view_push(kids@, record);
    }
    kids.push(record);
    assert(kids@[kids@.len() - 1].name@ == meta_name());
    Node::Dir { entries: kids }
}

/// Where a batch stands: the target so far, the counts, and whether it has
/// been stopped by a failure of the file system.
pub ghost struct BatchState {
    pub tree: Listing,
    pub installed: nat,
    pub skipped: nat,
    pub failed: bool,
}

/// One item of a batch. A skill that the library lacks is skipped, and so is
/// one whose place is taken while `force` is not set. A failure of the file
/// system stops the batch. Otherwise the link is placed.
pub open spec fn batch_step(
    source: Seq<Entry>,
    base: Seq<char>,
    origin: Option<SpecText>,
    b: BatchState,
    item: (Seq<char>, Seq<char>),
    force: bool,
) -> BatchState {
    if b.failed {
        b
    } else if !skill_at(source, item.0, item.1) {
        BatchState { skipped: b.skipped + 1, ..b }
    } else {
        match t_put_error(b.tree, item.0, item.1, force) {
            None => BatchState {
                tree: t_put(b.tree, item.0, item.1, placed_tree(source, base, origin, item)),
                installed: b.installed + 1,
                ..b
            },
            Some(SkillError::Conflict) => BatchState { skipped: b.skipped + 1, ..b },
            Some(_) => BatchState { failed: true, ..b },
        }
    }
}

/// A batch: its items one after the other, in their order.
pub open spec fn batch_run(
    source: Seq<Entry>,
    base: Seq<char>,
    origin: Option<SpecText>,
    t: Listing,
    items: Seq<(Seq<char>, Seq<char>)>,
    force: bool,
) -> BatchState
    decreases items.len(),
{
    if items.len() == 0 {
        BatchState { tree: t, installed: 0, skipped: 0, failed: false }
    } else {
        batch_step(
            source,
            base,
            origin,
            batch_run(source, base, origin, t, items.drop_last(), force),
            items.last(),
            force,
        )
    }
}

/// A batch that has failed after `k` items ends as it stood then.
pub proof fn lemma_failed_batch_stays(
    source: Seq<Entry>,
    base: Seq<char>,
    origin: Option<SpecText>,
    t: Listing,
    items: Seq<(Seq<char>, Seq<char>)>,
    force: bool,
    k: int,
)
    requires
        0 <= k <= items.len(),
        batch_run(source, base, origin, t, items.subrange(0, k), force).failed,
    ensures
        batch_run(source, base, origin, t, items, force) == batch_run(
            source,
            base,
            origin,
            t,
            items.subrange(0, k),
            force,
        ),
    decreases items.len(),
{
    if k == items.len() {
        assert(items.subrange(0, k) =~= items);
    } else {
        assert(items.drop_last().subrange(0, k) =~= items.subrange(0, k));
        lemma_failed_batch_stays(source, base, origin, t, items.drop_last(), force, k);
    }
}

/// Installs a list of skills from a library, in the order of the list: as
/// links where `origin` is `None`, as copies that record their origin where
/// it names the repository that the library was fetched from.
///
/// Each item is handled completely before the next. A skill that the library
/// lacks is skipped; so is one whose place is taken, unless `force` is set.
/// A failure of the file system ends the batch with `IoFailure`; what was
/// installed before it stays. The result counts the skills installed and
/// skipped.
pub fn install_batch(
    source: &Vec<Entry>,
    source_path: &str,
    origin: Option<&RemoteSpec>,
    skills: &Vec<(String, String)>,
    target: &mut Vec<Entry>,
    force: bool,
) -> (r: Result<Tally, SkillError>)
    ensures
        ({
            let b = batch_run(
                source@,
                source_path@,
                origin_text(origin),
                view_entries(old(target)@),
                pair_texts(skills@),
                force,
            );
            &&& view_entries(final(target)@) == b.tree
            &&& match r {
                Ok(tally) => !b.failed && tally.installed == b.installed && tally.skipped
                    == b.skipped && tally.installed + tally.skipped == skills@.len(),
                Err(e) => b.failed && e == SkillError::IoFailure,
            }
        }),
{
    let ghost t0 = view_entries(target@);
    let ghost items = pair_texts(skills@);
    let ghost from = origin_text(origin);
    let n: usize = skills.len();
    let mut installed: usize = 0;
    let mut skipped: usize = 0;
    let mut i: usize = 0;
    assert(items.subrange(0, 0) =~= Seq::<(Seq<char>, Seq<char>)>::empty());
    while i < n
        invariant
            n == skills@.len(),
            items == pair_texts(skills@),
            from == origin_text(origin),
            t0 == view_entries(old(target)@),
            i <= n,
            installed + skipped == i,
            ({
                let b = batch_run(
                    source@,
                    source_path@,
                    from,
                    t0,
                    items.subrange(0, i as int),
                    force,
                );
                &&& view_entries(target@) == b.tree
                &&& !b.failed
                &&& installed == b.installed
                &&& skipped == b.skipped
            }),
        decreases n - i,
    {
        let ghost item = (skills@[i as int].0@, skills@[i as int].1@);
        let ghost b0 = batch_run(source@, source_path@, from, t0, items.subrange(0, i as int), force);
        let ghost b1 = batch_run(source@, source_path@, from, t0, items.subrange(0, i + 1), force);
        proof {
            assert(items.subrange(0, i + 1).drop_last() =~= items.subrange(0, i as int));
            assert(items.subrange(0, i + 1).last() == item);
            assert(b1 == batch_step(source@, source_path@, from, b0, item, force));
        }
        let group: &str = skills[i].0.as_str();
        let name: &str = skills[i].1.as_str();
        match skill_node_at(source, group, name) {
            None => {
                skipped += 1;
            },
            Some(found) => {
                let node: Node = match origin {
                    None => Node::Link { target: skill_path(source_path, group, name) },
                    Some(spec) => remote_copy(found, &origin_of(spec, group, name)),
                };
                assert(view_node(node) == placed_tree(source@, source_path@, from, item));
                match install_at(target, group, name, node, force) {
                    Ok(_) => {
                        installed += 1;
                    },
                    Err(SkillError::Conflict) => {
                        skipped += 1;
                    },
                    Err(_) => {
                        proof {
                            assert(b1.failed);
                            assert(b1.tree == b0.tree);
                            lemma_failed_batch_stays(
                                source@,
                                source_path@,
                                from,
                                t0,
                                items,
                                force,
                                i + 1,
                            );
                        }
                        return Err(SkillError::IoFailure);
                    },
                }
            },
        }
        i += 1;
    }
    assert(items.subrange(0, n as int) =~= items);
    Ok(Tally { installed, skipped })
}

/// Installs a list of skills of a local library as links, in the order of
/// the list, as `install_batch` does.
pub fn install_selected_skills(
    source: &Vec<Entry>,
    source_path: &str,
    skills: &Vec<(String, String)>,
    target: &mut Vec<Entry>,
    force: bool,
) -> (r: Result<Tally, SkillError>)
    ensures
        ({
            let b = batch_run(
                source@,
                source_path@,
                None,
                view_entries(old(target)@),
                pair_texts(skills@),
                force,
            );
            &&& view_entries(final(target)@) == b.tree
            &&& match r {
                Ok(tally) => !b.failed && tally.installed == b.installed && tally.skipped
                    == b.skipped && tally.installed + tally.skipped == skills@.len(),
                Err(e) => b.failed && e == SkillError::IoFailure,
            }
        }),
{
    install_batch(source, source_path, None, skills, target, force)
}

/// Installs skills of a repository that was fetched whole.
///
/// `chosen` is what was selected of it; `None` stands for every skill that
/// the fetched tree holds. Where the tree holds no skill at all there is
/// nothing to do: the result is `NotFound` and the target is not touched.
/// Otherwise the chosen skills are installed as a batch of copies, each with
/// a record of its own origin: the repository's address with the path
/// `group/name`.
pub fn install_remote_repo(
    fetched: &Vec<Entry>,
    spec: &RemoteSpec,
    chosen: Option<&Vec<(String, String)>>,
    target: &mut Vec<Entry>,
    force: bool,
) -> (r: Result<Tally, SkillError>)
    ensures
        every_skill(fetched@).len() == 0 ==> r == Err::<Tally, SkillError>(SkillError::NotFound)
            && final(target)@ == old(target)@,
        every_skill(fetched@).len() > 0 ==> ({
            let b = batch_run(
                fetched@,
                Seq::<char>::empty(),
                Some(spec@),
                view_entries(old(target)@),
                match chosen {
                    Some(list) => pair_texts(list@),
                    None => every_skill(fetched@),
                },
                force,
            );
            &&& view_entries(final(target)@) == b.tree
            &&& match r {
                Ok(tally) => !b.failed && tally.installed == b.installed && tally.skipped
                    == b.skipped,
                Err(e) => b.failed && e == SkillError::IoFailure,
            }
        }),
{
    proof {
        reveal_strlit("");
        assert(""@ =~= Seq::<char>::empty());
    }
    let every: Vec<(String, String)> = all_skills(fetched);
    assert(pair_texts(every@).len() == every@.len());
    if every.len() == 0 {
        return Err(SkillError::NotFound);
    }
    match chosen {
        Some(list) => install_batch(fetched, "", Some(spec), list, target, force),
        None => install_batch(fetched, "", Some(spec), &every, target, force),
    }
}

/// Installs a profile of a local library.
///
/// The profile is resolved first; where there is none of that name nothing
/// is touched and the profile is not found. Its skills are then installed as
/// a batch of links, in the profile's order.
pub fn install_profile(
    profile_name: &str,
    source: &Vec<Entry>,
    declared: &Vec<Profile>,
    source_path: &str,
    target: &mut Vec<Entry>,
    force: bool,
) -> (r: Result<Tally, SkillError>)
    ensures
        profile_name@ == all_text() ==> ({
            let b = batch_run(
                source@,
                source_path@,
                None,
                view_entries(old(target)@),
                every_skill(source@),
                force,
            );
            &&& view_entries(final(target)@) == b.tree
            &&& match r {
                Ok(tally) => !b.failed && tally.installed == b.installed && tally.skipped
                    == b.skipped,
                Err(e) => b.failed && e == SkillError::IoFailure,
            }
        }),
        profile_name@ != all_text() && (forall|i: int|
            0 <= i < declared@.len() ==> (#[trigger] declared@[i]).name@ != profile_name@) ==> r
            == Err::<Tally, SkillError>(SkillError::NotFound) && final(target)@ == old(target)@,
        profile_name@ != all_text() ==> forall|i: int| #[trigger]
            declared_at(declared@, profile_name@, i) ==> ({
                let b = batch_run(
                    source@,
                    source_path@,
                    None,
                    view_entries(old(target)@),
                    pair_texts(declared@[i].skills@),
                    force,
                );
                &&& view_entries(final(target)@) == b.tree
                &&& match r {
                    Ok(tally) => !b.failed && tally.installed == b.installed && tally.skipped
                        == b.skipped,
                    Err(e) => b.failed && e == SkillError::IoFailure,
                }
            }),
{
    match resolve_profile(profile_name, source, declared) {
        Err(e) => Err(e),
        Ok(profile) => {
            proof {
                if profile_name@ != all_text() {
                    assert forall|i: int, j: int|
                        declared_at(declared@, profile_name@, i) && declared_at(
                            declared@,
                            profile_name@,
                            j,
                        ) implies i == j by {
                        if i < j {
                            assert(declared@[i].name@ != profile_name@);
                        }
                        if j < i {
                            assert(declared@[j].name@ != profile_name@);
                        }
                    }
                }
            }
            install_batch(source, source_path, None, &profile.skills, target, force)
        },
    }
}

/// A second install of the same skill without `force` is a conflict.
pub proof fn law_second_install_conflicts(t: Listing, g: Seq<char>, name: Seq<char>, x: Tree)
    requires
        t_put_error(t, g, name, false) is None,
    ensures
        t_put_error(t_put(t, g, name, x), g, name, false) == Some(SkillError::Conflict),
{
    lemma_put_shape(t, g, name, x);
}

/// A second install of the same skill with `force` succeeds and leaves what
/// the first install left.
pub proof fn law_forced_install_repeats(t: Listing, g: Seq<char>, name: Seq<char>, x: Tree)
    requires
        t_put_error(t, g, name, false) is None,
    ensures
        t_put_error(t_put(t, g, name, x), g, name, true) is None,
        t_put(t_put(t, g, name, x), g, name, x) == t_put(t, g, name, x),
{
    lemma_put_shape(t, g, name, x);
    let t1 = t_put(t, g, name, x);
    let i = t_pos(t1, g).unwrap();
    let kids = t_kids(t1[i].1);
    let k = kids.len() - 1;
    assert(t_without(kids, name).push((name, x)) =~= kids);
    assert(t1.update(i, (g, Tree::Dir(kids))) =~= t1);
}

/// What a listing looks like after a skill was placed where its name was
/// free: the group is a directory whose last entry is the skill, and no other
/// entry of the group has its name.
pub proof fn lemma_put_shape(t: Listing, g: Seq<char>, name: Seq<char>, x: Tree)
    requires
        t_put_error(t, g, name, false) is None,
    ensures
        ({
            let t1 = t_put(t, g, name, x);
            &&& t_pos(t1, g) is Some
            &&& 0 <= t_pos(t1, g).unwrap() < t1.len()
            &&& t1[t_pos(t1, g).unwrap()] == (g, Tree::Dir(t_kids(t1[t_pos(t1, g).unwrap()].1)))
            &&& ({
                let kids = t_kids(t1[t_pos(t1, g).unwrap()].1);
                &&& kids.len() > 0
                &&& kids.last() == (name, x)
                &&& t_pos(kids, name) == Some(kids.len() - 1)
            })
        }),
{
    let t1 = t_put(t, g, name, x);
    match t_pos(t, g) {
        Some(i) => {
            lemma_t_pos_is_first(t, g);
            let kids0 = t_kids(t[i].1);
            assert(!t_has(kids0, name));
            let kids = kids0.push((name, x));
            assert(t_first(t1, g, i)) by {
                assert forall|j: int| 0 <= j < i implies (#[trigger] t1[j]).0 != g by {
                    assert(t[j].0 != g);
                }
            }
            lemma_t_pos(t1, g, i);
            assert(t_first(kids, name, kids.len() - 1)) by {
                assert forall|j: int| 0 <= j < kids.len() - 1 implies (#[trigger] kids[j]).0
                    != name by {
                    assert(kids0[j].0 != name);
                }
            }
            lemma_t_pos(kids, name, kids.len() - 1);
        },
        None => {
            assert(!t_has(t, g));
            let i = t.len() as int;
            assert(t_first(t1, g, i)) by {
                assert forall|j: int| 0 <= j < i implies (#[trigger] t1[j]).0 != g by {
                    assert(t[j].0 != g);
                }
            }
            lemma_t_pos(t1, g, i);
            let kids = seq![(name, x)];
            assert(t_first(kids, name, 0));
            lemma_t_pos(kids, name, 0);
        },
    }
}

/// The listing with `x` as its last entry, under the name `name`. What the
/// listing held under that name before is gone.
pub open spec fn t_put_flat(t: Listing, name: Seq<char>, x: Tree) -> Listing {
    t_without(t, name).push((name, x))
}

/// Where a skill fetched from `path` goes: under the name of the path's last
/// segment, into the group that the segment before it names, or directly
/// under the target where the path has one segment only. Empty segments do
/// not count, so a `/` at the end of the path changes nothing.
pub open spec fn remote_place(path: Seq<char>) -> PlaceText {
    (
        parent_name(path),
        match last_name(path) {
            Some(n) => n,
            None => Seq::empty(),
        },
    )
}

/// What the install of one fetched skill comes to: the place it went to and
/// the target after it, or the error that left the target as it was.
///
/// An address whose path has no segment is refused as invalid: it names a
/// repository to browse, never one skill. What was fetched must be a skill.
pub open spec fn remote_install(t: Listing, fetched: Node, sp: SpecText, force: bool) -> Result<
    (PlaceText, Listing),
    SkillError,
> {
    let pl = remote_place(sp.path);
    let x = Tree::Dir(t_with_meta(t_kids(view_node(fetched)), spec_format(sp)));
    if last_name(sp.path) is None {
        Err(SkillError::InvalidSpec)
    } else if !is_skill(fetched) {
        Err(SkillError::RemoteFailure)
    } else {
        match pl.0 {
            Some(g) => match t_put_error(t, g, pl.1, force) {
                Some(e) => Err(e),
                None => Ok((pl, t_put(t, g, pl.1, x))),
            },
            None => if !force && t_has(t, pl.1) {
                Err(SkillError::Conflict)
            } else {
                Ok((pl, t_put_flat(t, pl.1, x)))
            },
        }
    }
}

/// Places `node` directly under the target, as its last entry. Where the
/// name is taken and `force` is not set, this is a conflict and the target
/// stays as it was.
pub fn install_flat(target: &mut Vec<Entry>, name: &str, node: Node, force: bool) -> (r: Result<
    (),
    SkillError,
>)
    ensures
        match r {
            Ok(_) => (force || !t_has(view_entries(old(target)@), name@)) && view_entries(
                final(target)@,
            ) == t_put_flat(view_entries(old(target)@), name@, view_node(node)),
            Err(e) => e == SkillError::Conflict && !force && t_has(
                view_entries(old(target)@),
                name@,
            ) && final(target)@ == old(target)@,
        },
{
    let ghost es0 = target@;
    match find_entry(target, name) {
        Some(k) => {
            proof {
                lemma_view_pos(es0, name@, k as int);
                lemma_view_remove(es0, k as int);
            }
            if !force {
                return Err(SkillError::Conflict);
            }
            target.remove(k);
        },
        None => {
            proof {
                lemma_view_absent(es0, name@);
            }
        },
    }
    let fresh = Entry { name: owned(name), node };
    proof {
        lemma_view_push(target@, fresh);
    }
    target.push(fresh);
    Ok(())
}

/// Installs one skill that was fetched from a remote address, as a copy with
/// the record of that address: what `remote_install` says.
pub fn install_remote(fetched: &Node, spec: &RemoteSpec, target: &mut Vec<Entry>, force: bool) -> (r:
    Result<Place, SkillError>)
    ensures
        match r {
            Ok(pl) => remote_install(view_entries(old(target)@), *fetched, spec@, force) == Ok::<
                (PlaceText, Listing),
                SkillError,
            >((pl@, view_entries(final(target)@))),
            Err(e) => remote_install(view_entries(old(target)@), *fetched, spec@, force) == Err::<
                (PlaceText, Listing),
                SkillError,
            >(e) && final(target)@ == old(target)@,
        },
{
    let name: String = match last_name_of(spec.path.as_str()) {
        Some(n) => n,
        None => {
            return Err(SkillError::InvalidSpec);
        },
    };
    if !node_is_skill(fetched) {
        return Err(SkillError::RemoteFailure);
    }
    let copy: Node = remote_copy(fetched, spec);
    match parent_dir_name(spec.path.as_str()) {
        Some(g) => match install_at(target, g.as_str(), name.as_str(), copy, force) {
            Ok(_) => Ok(Place { group: Some(g), name }),
            Err(e) => Err(e),
        },
        None => match install_flat(target, name.as_str(), copy, force) {
            Ok(_) => Ok(Place { group: None, name }),
            Err(e) => Err(e),
        },
    }
}

/// No two entries of the listing share a name.
pub open spec fn t_distinct(t: Listing) -> bool {
    forall|i: int, j: int| 0 <= i < j < t.len() ==> (#[trigger] t[i]).0 != (#[trigger] t[j]).0
}

/// Installing keeps every address unique: where no two entries of the target
/// share a name, and no two of the group either, that still holds after a
/// skill was placed in the group.
pub proof fn law_install_keeps_names_unique(t: Listing, g: Seq<char>, name: Seq<char>, x: Tree)
    requires
        t_distinct(t),
        t_pos(t, g) is Some ==> t_distinct(t_kids(t[t_pos(t, g).unwrap()].1)),
    ensures
        t_distinct(t_put(t, g, name, x)),
        t_pos(t_put(t, g, name, x), g) is Some,
        t_distinct(t_kids(t_put(t, g, name, x)[t_pos(t_put(t, g, name, x), g).unwrap()].1)),
{
    let after = t_put(t, g, name, x);
    lemma_t_pos_is_first(t, g);
    match t_pos(t, g) {
        None => {
            let k = t.len() as int;
            assert forall|i: int, j: int| 0 <= i < j < after.len() implies (#[trigger] after[i]).0
                != (#[trigger] after[j]).0 by {
                assert(after[i] == t[i]);
                if j < k {
                    assert(after[j] == t[j]);
                }
            }
            assert(t_first(after, g, k)) by {
                assert forall|j: int| 0 <= j < k implies (#[trigger] after[j]).0 != g by {
                    assert(t[j].0 != g);
                }
            }
            lemma_t_pos(after, g, k);
        },
        Some(k) => {
            let kids = t_kids(t[k].1);
            let rest = t_without(kids, name);
            let now = rest.push((name, x));
            assert forall|i: int, j: int| 0 <= i < j < after.len() implies (#[trigger] after[i]).0
                != (#[trigger] after[j]).0 by {
                assert(after[i].0 == t[i].0);
                assert(after[j].0 == t[j].0);
            }
            assert(t_first(after, g, k)) by {
                assert forall|j: int| 0 <= j < k implies (#[trigger] after[j]).0 != g by {
                    assert(t[j].0 != g);
                }
            }
            lemma_t_pos(after, g, k);
            lemma_t_pos_is_first(kids, name);
            assert forall|i: int, j: int| 0 <= i < j < now.len() implies (#[trigger] now[i]).0 != (
            #[trigger] now[j]).0 by {
                match t_pos(kids, name) {
                    Some(p) => {
                        let oi = if i < p { i } else { i + 1 };
                        let oj = if j < p { j } else { j + 1 };
                        assert(now[i] == kids[oi]);
                        if j < rest.len() {
                            assert(now[j] == kids[oj]);
                        } else {
                            assert(kids[oi].0 != kids[p].0);
                        }
                    },
                    None => {
                        assert(now[i] == kids[i]);
                        if j < rest.len() {
                            assert(now[j] == kids[j]);
                        }
                    },
                }
            }
        },
    }
}

/// A skill installed from a remote address carries the record of it: what
/// is placed for it holds the record file, with the canonical text of the
/// address, as its last entry.
pub proof fn law_remote_install_carries_record(
    source: Seq<Entry>,
    base: Seq<char>,
    sp: SpecText,
    item: (Seq<char>, Seq<char>),
)
    ensures
        placed_tree(source, base, Some(sp), item) is Dir,
        t_has(t_kids(placed_tree(source, base, Some(sp), item)), meta_name()),
        t_kids(placed_tree(source, base, Some(sp), item)).last() == (
            meta_name(),
            Tree::File(spec_format(skill_origin(sp, item.0, item.1))),
        ),
        placed_tree(source, base, None, item) is Link,
{
    let kids = t_kids(placed_tree(source, base, Some(sp), item));
    assert(kids[kids.len() - 1].0 == meta_name());
}

/// The listing without what its directory `g` holds under the name `name`.
pub open spec fn t_without_at(t: Listing, g: Seq<char>, name: Seq<char>) -> Listing {
    match t_pos(t, g) {
        Some(i) => t.update(i, (g, Tree::Dir(t_without(t_kids(t[i].1), name)))),
        None => t,
    }
}

/// A forced install equals a fresh one: where the group's names are unique,
/// placing a skill over what stood under its name leaves what placing it
/// into the target without the old entry leaves, and into that target it can
/// be placed without force.
pub proof fn law_forced_install_equals_fresh(t: Listing, g: Seq<char>, name: Seq<char>, x: Tree)
    requires
        t_put_error(t, g, name, true) is None,
        t_pos(t, g) is Some ==> t_distinct(t_kids(t[t_pos(t, g).unwrap()].1)),
    ensures
        t_put_error(t_without_at(t, g, name), g, name, false) is None,
        t_put(t_without_at(t, g, name), g, name, x) == t_put(t, g, name, x),
{
    lemma_t_pos_is_first(t, g);
    match t_pos(t, g) {
        None => {},
        Some(i) => {
            let kids = t_kids(t[i].1);
            let rest = t_without(kids, name);
            let bare = t_without_at(t, g, name);
            assert(t_first(bare, g, i)) by {
                assert forall|j: int| 0 <= j < i implies (#[trigger] bare[j]).0 != g by {
                    assert(t[j].0 != g);
                }
            }
            lemma_t_pos(bare, g, i);
            lemma_t_pos_is_first(kids, name);
            assert(!t_has(rest, name)) by {
                match t_pos(kids, name) {
                    Some(p) => {
                        assert forall|j: int| 0 <= j < rest.len() implies (#[trigger] rest[j]).0
                            != name by {
                            let oj = if j < p {
                                j
                            } else {
                                j + 1
                            };
                            assert(rest[j] == kids[oj]);
                            if oj < p {
                                assert(kids[oj].0 != kids[p].0);
                            } else {
                                assert(kids[p].0 != kids[oj].0);
                            }
                        }
                    },
                    None => {},
                }
            }
            assert(t_without(rest, name) == rest);
            assert(t_put(bare, g, name, x) =~= t_put(t, g, name, x));
        },
    }
}

} // verus!
