//! Carrying out the copy rules of a manifest.
//!
//! Files are copied from a repository tree into a tree under the home
//! directory. Links in the source are never followed or copied. With the
//! merge strategy a name that the destination already has is left alone;
//! with the replace strategy a file is overwritten.

use vstd::prelude::*;
use vstd::string::*;
use crate::error::SkillError;
use crate::manifest::{
    all_rules_safe, Manifest, parse_strategy, SetupCopy, Strategy, strategy_named,
    validate_manifest,
};
use crate::paths::{segments, split_path};
use crate::text::{char_len, slice_of};
use crate::tree::{
    Entry, find_entry, lemma_t_pos, lemma_t_pos_is_first, lemma_view_absent, lemma_view_entries,
    lemma_view_pos, lemma_view_push, lemma_view_update, Listing, Node, t_first, t_has, t_kids,
    t_pos, texts, Tree, view_entries, view_node,
};

verus! {

/// Where a copy stands: the destination so far, the number of files copied,
/// and whether it has been stopped by a failure of the file system.
pub ghost struct CopyState {
    pub tree: Listing,
    pub copied: nat,
    pub failed: bool,
}

/// One more, up to the largest number that a count can hold.
pub open spec fn bump(n: nat) -> nat {
    if n < usize::MAX {
        n + 1
    } else {
        n
    }
}

/// The destination listing after one source entry was handled.
///
/// A link is passed over. A file is added where the destination lacks its
/// name; where the name is there, the merge strategy leaves it alone and the
/// replace strategy overwrites it, which fails on a directory. A directory
/// is entered: a missing one is created, an existing one is copied into, and
/// anything else of that name is a failure.
pub open spec fn t_copy_entry(d: CopyState, name: Seq<char>, x: Tree, replace: bool) -> CopyState
    decreases x, 0int,
{
    if d.failed {
        d
    } else {
        match x {
            Tree::Link(_) => d,
            Tree::File(c) => match t_pos(d.tree, name) {
                None => CopyState {
                    tree: d.tree.push((name, Tree::File(c))),
                    copied: bump(d.copied),
                    failed: false,
                },
                Some(k) => if !replace {
                    d
                } else if d.tree[k].1 is Dir {
                    CopyState { failed: true, ..d }
                } else {
                    CopyState {
                        tree: d.tree.update(k, (name, Tree::File(c))),
                        copied: bump(d.copied),
                        failed: false,
                    }
                },
            },
            Tree::Dir(kids) => match t_pos(d.tree, name) {
                None => {
                    let sub = t_copy_dir(
                        kids,
                        CopyState { tree: Seq::empty(), copied: d.copied, failed: false },
                        replace,
                    );
                    CopyState {
                        tree: d.tree.push((name, Tree::Dir(sub.tree))),
                        copied: sub.copied,
                        failed: sub.failed,
                    }
                },
                Some(k) => match d.tree[k].1 {
                    Tree::Dir(dk) => {
                        let sub = t_copy_dir(
                            kids,
                            CopyState { tree: dk, copied: d.copied, failed: false },
                            replace,
                        );
                        CopyState {
                            tree: d.tree.update(k, (name, Tree::Dir(sub.tree))),
                            copied: sub.copied,
                            failed: sub.failed,
                        }
                    },
                    _ => CopyState { failed: true, ..d },
                },
            },
        }
    }
}

/// The destination listing after the entries of a source directory were
/// handled, one after the other.
pub open spec fn t_copy_dir(src: Listing, d: CopyState, replace: bool) -> CopyState
    decreases src, 1int,
{
    if src.len() == 0 {
        d
    } else {
        t_copy_entry(t_copy_dir(src.drop_last(), d, replace), src.last().0, src.last().1, replace)
    }
}

/// A copy that has failed after `k` entries ends as it stood then.
pub proof fn lemma_failed_copy_stays(src: Listing, d: CopyState, replace: bool, k: int)
    requires
        0 <= k <= src.len(),
        t_copy_dir(src.subrange(0, k), d, replace).failed,
    ensures
        t_copy_dir(src, d, replace) == t_copy_dir(src.subrange(0, k), d, replace),
    decreases src.len(),
{
    if k == src.len() {
        assert(src.subrange(0, k) =~= src);
    } else {
        assert(src.drop_last().subrange(0, k) =~= src.subrange(0, k));
        lemma_failed_copy_stays(src.drop_last(), d, replace, k);
        let pre = t_copy_dir(src.drop_last(), d, replace);
        assert(pre.failed);
        assert(t_copy_dir(src, d, replace) == t_copy_entry(
            pre,
            src.last().0,
            src.last().1,
            replace,
        ));
        assert(t_copy_entry(pre, src.last().0, src.last().1, replace) == pre);
    }
}

/// One more, up to the largest number that a count can hold.
fn count_one(n: usize) -> (r: usize)
    ensures
        r == bump(n as nat),
{
    if n < usize::MAX {
        n + 1
    } else {
        n
    }
}

/// Copies one file into a destination listing under the given strategy.
///
/// Gives the new count and whether the copy went through. With the merge
/// strategy an existing name is left alone and nothing is counted.
pub fn copy_file_with_strategy(
    name: &str,
    content: &str,
    dest: &mut Vec<Entry>,
    copied: usize,
    replace: bool,
) -> (r: (usize, bool))
    ensures
        ({
            let s = t_copy_entry(
                CopyState { tree: view_entries(old(dest)@), copied: copied as nat, failed: false },
                name@,
                Tree::File(content@),
                replace,
            );
            &&& view_entries(final(dest)@) == s.tree
            &&& r.0 == s.copied
            &&& r.1 == !s.failed
        }),
{
    let ghost es0 = dest@;
    match find_entry(dest, name) {
        None => {
            let fresh = Entry {
                name: String::from_str(name),
                node: Node::File { content: String::from_str(content) },
            };
            proof {
                lemma_view_absent(es0, name@);
                lemma_view_push(es0, fresh);
            }
            dest.push(fresh);
            (count_one(copied), true)
        },
        Some(k) => {
            proof {
                lemma_view_pos(es0, name@, k as int);
            }
            if !replace {
                return (copied, true);
            }
            match &dest[k].node {
                Node::Dir { entries: _ } => {
                    return (copied, false);
                },
                _ => {},
            }
            let Entry { name: old_name, node: _ } = dest.remove(k);
            let fresh = Entry { name: old_name, node: Node::File { content: String::from_str(content) } };
            proof {
                lemma_view_update(es0, k as int, fresh);
                assert(es0.remove(k as int).insert(k as int, fresh) =~= es0.update(k as int, fresh));
            }
            dest.insert(k, fresh);
            (count_one(copied), true)
        },
    }
}

/// Copies the entries of a source directory into a destination listing
/// under the given strategy, directories within directories.
///
/// Gives the new count and whether the copy went through. A failure stops
/// the copy; what was copied before it stays.
pub fn copy_dir_with_strategy(
    source: &Vec<Entry>,
    dest: &mut Vec<Entry>,
    copied: usize,
    replace: bool,
) -> (r: (usize, bool))
    ensures
        ({
            let s = t_copy_dir(
                view_entries(source@),
                CopyState { tree: view_entries(old(dest)@), copied: copied as nat, failed: false },
                replace,
            );
            &&& view_entries(final(dest)@) == s.tree
            &&& r.0 == s.copied
            &&& r.1 == !s.failed
        }),
    decreases source, 0int,
{
    let ghost sv = view_entries(source@);
    let ghost init = CopyState {
        tree: view_entries(dest@),
        copied: copied as nat,
        failed: false,
    };
    proof {
        lemma_view_entries(source@);
    }
    let n: usize = source.len();
    let mut count: usize = copied;
    let mut i: usize = 0;
    assert(sv.subrange(0, 0) =~= Seq::<(Seq<char>, Tree)>::empty());
    while i < n
        invariant
            n == source@.len(),
            sv == view_entries(source@),
            sv.len() == n,
            forall|j: int|
                0 <= j < n ==> #[trigger] sv[j] == (source@[j].name@, view_node(source@[j].node)),
            init == (CopyState {
                tree: view_entries(old(dest)@),
                copied: copied as nat,
                failed: false,
            }),
            i <= n,
            ({
                let s = t_copy_dir(sv.subrange(0, i as int), init, replace);
                &&& view_entries(dest@) == s.tree
                &&& count == s.copied
                &&& !s.failed
            }),
        decreases n - i,
    {
        let ghost s0 = t_copy_dir(sv.subrange(0, i as int), init, replace);
        let ghost s1 = t_copy_dir(sv.subrange(0, i + 1), init, replace);
        let ghost es0 = dest@;
        proof {
            assert(sv.subrange(0, i + 1).drop_last() =~= sv.subrange(0, i as int));
            assert(sv.subrange(0, i + 1).last() == sv[i as int]);
            assert(s1 == t_copy_entry(s0, sv[i as int].0, sv[i as int].1, replace));
        }
        let name: &str = source[i].name.as_str();
        let mut ok: bool = true;
        match &source[i].node {
            Node::Link { target: _ } => {},
            Node::File { content } => {
                let (c, fine) = copy_file_with_strategy(name, content.as_str(), dest, count, replace);
                count = c;
                ok = fine;
            },
            Node::Dir { entries } => {
                proof {
                    vstd::std_specs::vec::axiom_vec_index_decreases(*source, i as int);
                    assert(source@[i as int].node->entries == *entries);
                    assert(decreases_to!(source@[i as int] => source@[i as int].node));
                    assert(decreases_to!(source@[i as int].node => source@[i as int].node->entries));
                }
                let (c, fine) = copy_subdir(name, entries, dest, count, replace);
                count = c;
                ok = fine;
            },
        }
        proof {
            assert(view_entries(dest@) == s1.tree);
            assert(count == s1.copied);
            assert(ok == !s1.failed);
        }
        if !ok {
            proof {
                lemma_failed_copy_stays(sv, init, replace, i + 1);
            }
            return (count, false);
        }
        i += 1;
    }
    assert(sv.subrange(0, n as int) =~= sv);
    (count, true)
}

/// Copies a source directory into a destination listing under its name: a
/// missing directory is created, an existing one is copied into, and
/// anything else of that name is a failure.
pub fn copy_subdir(
    name: &str,
    entries: &Vec<Entry>,
    dest: &mut Vec<Entry>,
    copied: usize,
    replace: bool,
) -> (r: (usize, bool))
    ensures
        ({
            let s = t_copy_entry(
                CopyState { tree: view_entries(old(dest)@), copied: copied as nat, failed: false },
                name@,
                Tree::Dir(view_entries(entries@)),
                replace,
            );
            &&& view_entries(final(dest)@) == s.tree
            &&& r.0 == s.copied
            &&& r.1 == !s.failed
        }),
    decreases entries, 1int,
{
    let ghost es0 = dest@;
    match find_entry(dest, name) {
        None => {
            let mut sub: Vec<Entry> = Vec::new();
            assert(view_entries(sub@) =~= Seq::<(Seq<char>, Tree)>::empty());
            let (c, fine) = copy_dir_with_strategy(entries, &mut sub, copied, replace);
            let made = Entry { name: String::from_str(name), node: Node::Dir { entries: sub } };
            proof {
                lemma_view_absent(es0, name@);
                lemma_view_push(es0, made);
            }
            dest.push(made);
            (c, fine)
        },
        Some(k) => {
            proof {
                lemma_view_pos(es0, name@, k as int);
            }
            match &dest[k].node {
                Node::Dir { entries: _ } => {},
                _ => {
                    return (copied, false);
                },
            }
            let Entry { name: old_name, node } = dest.remove(k);
            match node {
                Node::Dir { entries: inner } => {
                    let mut sub: Vec<Entry> = inner;
                    let (c, fine) = copy_dir_with_strategy(entries, &mut sub, copied, replace);
                    let made = Entry { name: old_name, node: Node::Dir { entries: sub } };
                    proof {
                        lemma_view_update(es0, k as int, made);
                        assert(es0.remove(k as int).insert(k as int, made) =~= es0.update(
                            k as int,
                            made,
                        ));
                    }
                    dest.insert(k, made);
                    (c, fine)
                },
                _ => (copied, false),
            }
        },
    }
}

/// What a copy takes from the source: a directory's entries, or a file's
/// text.
pub enum Payload<'a> {
    Dir(&'a Vec<Entry>),
    File(&'a str),
}

/// The tree of a payload.
pub open spec fn payload_tree(p: Payload) -> Tree {
    match p {
        Payload::Dir(es) => Tree::Dir(view_entries(es@)),
        Payload::File(c) => Tree::File(c@),
    }
}

/// What the path `segs` leads to under a listing: the listing itself for
/// the empty path, else the entry that the last segment names in the
/// directory that the segments before it lead to.
pub open spec fn t_find(t: Listing, segs: Seq<Seq<char>>) -> Option<Tree>
    decreases segs.len(),
{
    if segs.len() == 0 {
        Some(Tree::Dir(t))
    } else {
        match t_pos(t, segs[0]) {
            None => None,
            Some(k) => if segs.len() == 1 {
                Some(t[k].1)
            } else {
                match t[k].1 {
                    Tree::Dir(l) => t_find(l, segs.drop_first()),
                    _ => None,
                }
            },
        }
    }
}

/// The destination after `x` was copied to the path `segs` under it.
///
/// Directories on the way are created where they are missing; anything else
/// in their place is a failure. At the end of the path a link is never
/// touched: the copy passes it over. Otherwise the last segment is handled
/// as an entry of that name is. The empty path stands for the destination
/// itself: a directory is copied into it, and a file cannot replace it.
pub open spec fn t_copy_at(d: CopyState, segs: Seq<Seq<char>>, x: Tree, replace: bool) -> CopyState
    decreases segs.len(),
{
    if d.failed {
        d
    } else if segs.len() == 0 {
        match x {
            Tree::Dir(kids) => t_copy_dir(kids, d, replace),
            Tree::File(_) => if replace {
                CopyState { failed: true, ..d }
            } else {
                d
            },
            Tree::Link(_) => d,
        }
    } else if segs.len() == 1 {
        if t_pos(d.tree, segs[0]) is Some && d.tree[t_pos(d.tree, segs[0]).unwrap()].1 is Link {
            d
        } else {
            t_copy_entry(d, segs[0], x, replace)
        }
    } else {
        match t_pos(d.tree, segs[0]) {
            None => {
                let sub = t_copy_at(
                    CopyState { tree: Seq::empty(), copied: d.copied, failed: false },
                    segs.drop_first(),
                    x,
                    replace,
                );
                CopyState {
                    tree: d.tree.push((segs[0], Tree::Dir(sub.tree))),
                    copied: sub.copied,
                    failed: sub.failed,
                }
            },
            Some(k) => match d.tree[k].1 {
                Tree::Dir(dk) => {
                    let sub = t_copy_at(
                        CopyState { tree: dk, copied: d.copied, failed: false },
                        segs.drop_first(),
                        x,
                        replace,
                    );
                    CopyState {
                        tree: d.tree.update(k, (segs[0], Tree::Dir(sub.tree))),
                        copied: sub.copied,
                        failed: sub.failed,
                    }
                },
                _ => CopyState { failed: true, ..d },
            },
        }
    }
}

/// The segments of the destination of a rule: those of what follows its `~`.
pub open spec fn home_segments(to: Seq<char>) -> Seq<Seq<char>> {
    if to.len() == 0 {
        Seq::empty()
    } else {
        segments(to.subrange(1, to.len() as int))
    }
}

/// The destination after one rule: a source that the repository lacks, or
/// that is a link, leaves it as it is; anything else is copied to the rule's
/// destination under the rule's strategy.
pub open spec fn t_rule_step(repo: Listing, d: CopyState, rule: SetupCopy) -> CopyState {
    if d.failed {
        d
    } else {
        match t_find(repo, segments(rule.from@)) {
            None => d,
            Some(Tree::Link(_)) => d,
            Some(x) => t_copy_at(
                d,
                home_segments(rule.to@),
                x,
                strategy_named(rule.strategy@) == Some(Strategy::Replace),
            ),
        }
    }
}

/// The destination after the rules of a manifest, one after the other.
pub open spec fn t_run_rules(repo: Listing, rules: Seq<SetupCopy>, d: CopyState) -> CopyState
    decreases rules.len(),
{
    if rules.len() == 0 {
        d
    } else {
        t_rule_step(repo, t_run_rules(repo, rules.drop_last(), d), rules.last())
    }
}

/// Rules that have failed after `k` of them end as they stood then.
pub proof fn lemma_failed_rules_stay(repo: Listing, rules: Seq<SetupCopy>, d: CopyState, k: int)
    requires
        0 <= k <= rules.len(),
        t_run_rules(repo, rules.subrange(0, k), d).failed,
    ensures
        t_run_rules(repo, rules, d) == t_run_rules(repo, rules.subrange(0, k), d),
    decreases rules.len(),
{
    if k == rules.len() {
        assert(rules.subrange(0, k) =~= rules);
    } else {
        assert(rules.drop_last().subrange(0, k) =~= rules.subrange(0, k));
        lemma_failed_rules_stay(repo, rules.drop_last(), d, k);
    }
}

/// What the path `path`, from its segment `from` on, leads to under a
/// listing, where it leads to an entry.
pub fn find_node<'a>(es: &'a Vec<Entry>, path: &Vec<String>, from: usize) -> (r: Option<&'a Node>)
    requires
        from < path@.len(),
    ensures
        match r {
            Some(n) => t_find(
                view_entries(es@),
                texts(path@).subrange(from as int, path@.len() as int),
            ) == Some(view_node(*n)),
            None => t_find(
                view_entries(es@),
                texts(path@).subrange(from as int, path@.len() as int),
            ) is None,
        },
    decreases path@.len() - from,
{
    let ghost segs = texts(path@).subrange(from as int, path@.len() as int);
    assert(segs[0] == path@[from as int]@);
    let n: usize = path.len();
    match find_entry(es, path[from].as_str()) {
        None => {
            proof {
                lemma_view_absent(es@, segs[0]);
            }
            None
        },
        Some(k) => {
            proof {
                lemma_view_pos(es@, segs[0], k as int);
            }
            if from + 1 == n {
                Some(&es[k].node)
            } else {
                assert(segs.drop_first() =~= texts(path@).subrange(from + 1, path@.len() as int));
                match &es[k].node {
                    Node::Dir { entries } => find_node(entries, path, from + 1),
                    _ => None,
                }
            }
        },
    }
}

/// Copies a payload to the path `path`, from its segment `from` on, under a
/// destination listing: what `t_copy_at` says.
pub fn copy_at(
    dest: &mut Vec<Entry>,
    path: &Vec<String>,
    from: usize,
    payload: &Payload,
    copied: usize,
    replace: bool,
) -> (r: (usize, bool))
    requires
        from <= path@.len(),
    ensures
        ({
            let s = t_copy_at(
                CopyState { tree: view_entries(old(dest)@), copied: copied as nat, failed: false },
                texts(path@).subrange(from as int, path@.len() as int),
                payload_tree(*payload),
                replace,
            );
            &&& view_entries(final(dest)@) == s.tree
            &&& r.0 == s.copied
            &&& r.1 == !s.failed
        }),
    decreases path@.len() - from,
{
    let ghost segs = texts(path@).subrange(from as int, path@.len() as int);
    let ghost es0 = dest@;
    let n: usize = path.len();
    if from == n {
        return match payload {
            Payload::Dir(entries) => copy_dir_with_strategy(entries, dest, copied, replace),
            Payload::File(_) => (copied, !replace),
        };
    }
    assert(segs[0] == path@[from as int]@);
    let name: &str = path[from].as_str();
    let at: Option<usize> = find_entry(dest, name);
    proof {
        match at {
            Some(k) => {
                lemma_view_pos(es0, segs[0], k as int);
            },
            None => {
                lemma_view_absent(es0, segs[0]);
            },
        }
    }
    if from + 1 == n {
        match at {
            Some(k) => match &dest[k].node {
                Node::Link { target: _ } => {
                    return (copied, true);
                },
                _ => {},
            },
            None => {},
        }
        return match payload {
            Payload::Dir(entries) => copy_subdir(name, entries, dest, copied, replace),
            Payload::File(content) => copy_file_with_strategy(name, content, dest, copied, replace),
        };
    }
    assert(segs.drop_first() =~= texts(path@).subrange(from + 1, path@.len() as int));
    match at {
        None => {
            let mut sub: Vec<Entry> = Vec::new();
            assert(view_entries(sub@) =~= Seq::<(Seq<char>, Tree)>::empty());
            let (c, fine) = copy_at(&mut sub, path, from + 1, payload, copied, replace);
            let made = Entry { name: String::from_str(name), node: Node::Dir { entries: sub } };
            proof {
                lemma_view_push(es0, made);
            }
            dest.push(made);
            (c, fine)
        },
        Some(k) => {
            match &dest[k].node {
                Node::Dir { entries: _ } => {},
                _ => {
                    return (copied, false);
                },
            }
            let Entry { name: old_name, node } = dest.remove(k);
            match node {
                Node::Dir { entries: inner } => {
                    let mut sub: Vec<Entry> = inner;
                    let (c, fine) = copy_at(&mut sub, path, from + 1, payload, copied, replace);
                    let made = Entry { name: old_name, node: Node::Dir { entries: sub } };
                    proof {
                        lemma_view_update(es0, k as int, made);
                        assert(es0.remove(k as int).insert(k as int, made) =~= es0.update(
                            k as int,
                            made,
                        ));
                    }
                    dest.insert(k, made);
                    (c, fine)
                },
                _ => (copied, false),
            }
        },
    }
}

/// Carries out one rule: what `t_rule_step` says.
pub fn run_rule(repo: &Vec<Entry>, rule: &SetupCopy, home: &mut Vec<Entry>, copied: usize) -> (r: (
    usize,
    bool,
))
    ensures
        ({
            let s = t_rule_step(
                view_entries(repo@),
                CopyState { tree: view_entries(old(home)@), copied: copied as nat, failed: false },
                *rule,
            );
            &&& view_entries(final(home)@) == s.tree
            &&& r.0 == s.copied
            &&& r.1 == !s.failed
        }),
{
    let from: Vec<String> = split_path(rule.from.as_str());
    let n: usize = char_len(rule.to.as_str());
    let to: Vec<String> = if n == 0 {
        let none: Vec<String> = Vec::new();
        assert(texts(none@) =~= Seq::<Seq<char>>::empty());
        none
    } else {
        split_path(slice_of(rule.to.as_str(), 1, n).as_str())
    };
    let replace: bool = match parse_strategy(rule.strategy.as_str()) {
        Some(Strategy::Replace) => true,
        _ => false,
    };
    assert(texts(to@).subrange(0, to@.len() as int) =~= texts(to@));
    assert(texts(from@).subrange(0, from@.len() as int) =~= texts(from@));
    if from.len() == 0 {
        return copy_at(home, &to, 0, &Payload::Dir(repo), copied, replace);
    }
    match find_node(repo, &from, 0) {
        None => (copied, true),
        Some(node) => match node {
            Node::Dir { entries } => copy_at(home, &to, 0, &Payload::Dir(entries), copied, replace),
            Node::File { content } => copy_at(
                home,
                &to,
                0,
                &Payload::File(content.as_str()),
                copied,
                replace,
            ),
            Node::Link { target: _ } => (copied, true),
        },
    }
}

/// Carries out the copy rules of a manifest against the home directory.
///
/// The manifest is checked first, every rule of it: one that holds an
/// unsafe rule is refused as a validation error, and nothing is copied. The
/// rules are then carried out in order, as `t_run_rules` says. A failure of
/// the file system ends the run with `IoFailure`; what was copied before it
/// stays. The result is the number of files copied; none is a valid result.
pub fn run_manifest_setup(repo: &Vec<Entry>, manifest: &Manifest, home: &mut Vec<Entry>) -> (r:
    Result<usize, SkillError>)
    ensures
        !all_rules_safe(manifest.setup.copy@) ==> r == Err::<usize, SkillError>(
            SkillError::ValidationError,
        ) && final(home)@ == old(home)@,
        all_rules_safe(manifest.setup.copy@) ==> ({
            let s = t_run_rules(
                view_entries(repo@),
                manifest.setup.copy@,
                CopyState { tree: view_entries(old(home)@), copied: 0, failed: false },
            );
            &&& view_entries(final(home)@) == s.tree
            &&& match r {
                Ok(count) => !s.failed && count == s.copied,
                Err(e) => s.failed && e == SkillError::IoFailure,
            }
        }),
{
    match validate_manifest(manifest) {
        Err(_) => {
            return Err(SkillError::ValidationError);
        },
        Ok(_) => {},
    }
    let ghost rules = manifest.setup.copy@;
    let ghost init = CopyState { tree: view_entries(home@), copied: 0, failed: false };
    let n: usize = manifest.setup.copy.len();
    let mut count: usize = 0;
    let mut i: usize = 0;
    while i < n
        invariant
            n == rules.len(),
            rules == manifest.setup.copy@,
            all_rules_safe(rules),
            init == (CopyState { tree: view_entries(old(home)@), copied: 0, failed: false }),
            i <= n,
            ({
                let s = t_run_rules(view_entries(repo@), rules.subrange(0, i as int), init);
                &&& view_entries(home@) == s.tree
                &&& count == s.copied
                &&& !s.failed
            }),
        decreases n - i,
    {
        proof {
            assert(rules.subrange(0, i + 1).drop_last() =~= rules.subrange(0, i as int));
            assert(rules.subrange(0, i + 1).last() == rules[i as int]);
        }
        let (c, fine) = run_rule(repo, &manifest.setup.copy[i], home, count);
        count = c;
        if !fine {
            proof {
                lemma_failed_rules_stay(view_entries(repo@), rules, init, i + 1);
            }
            return Err(SkillError::IoFailure);
        }
        i += 1;
    }
    assert(rules.subrange(0, n as int) =~= rules);
    Ok(count)
}

/// The destination already holds an entry of the source: a link asks for
/// nothing, a file for its name to be there, a directory for a directory of
/// its name that holds every entry of it in turn.
pub open spec fn holds_entry(dest: Listing, name: Seq<char>, x: Tree) -> bool
    decreases x, 0int,
{
    match x {
        Tree::Link(_) => true,
        Tree::File(_) => t_has(dest, name),
        Tree::Dir(kids) => t_pos(dest, name) is Some && dest[t_pos(dest, name).unwrap()].1 is Dir
            && holds_all(t_kids(dest[t_pos(dest, name).unwrap()].1), kids),
    }
}

/// The destination already holds every entry of the source.
pub open spec fn holds_all(dest: Listing, src: Listing) -> bool
    decreases src, 1int,
{
    src.len() == 0 || (holds_all(dest, src.drop_last()) && holds_entry(
        dest,
        src.last().0,
        src.last().1,
    ))
}

/// Under the merge strategy, an entry that the destination already holds is
/// passed over: nothing changes and nothing is counted.
pub proof fn lemma_held_entry_is_passed_over(d: CopyState, name: Seq<char>, x: Tree)
    requires
        !d.failed,
        holds_entry(d.tree, name, x),
    ensures
        t_copy_entry(d, name, x, false) == d,
    decreases x, 0int,
{
    match x {
        Tree::Dir(kids) => {
            lemma_t_pos_is_first(d.tree, name);
            let k = t_pos(d.tree, name).unwrap();
            let dk = t_kids(d.tree[k].1);
            let start = CopyState { tree: dk, copied: d.copied, failed: false };
            lemma_held_is_passed_over(start, kids);
            assert(d.tree.update(k, (name, Tree::Dir(dk))) =~= d.tree);
        },
        _ => {},
    }
}

/// Under the merge strategy, a source that the destination already holds
/// entry by entry is passed over: nothing changes and nothing is counted.
pub proof fn lemma_held_is_passed_over(d: CopyState, src: Listing)
    requires
        !d.failed,
        holds_all(d.tree, src),
    ensures
        t_copy_dir(src, d, false) == d,
    decreases src, 1int,
{
    if src.len() > 0 {
        lemma_held_is_passed_over(d, src.drop_last());
        lemma_held_entry_is_passed_over(d, src.last().0, src.last().1);
    }
}

/// The tree `y` is `x` grown: a file or a link is as it was, and a directory
/// is a directory whose listing has grown.
pub open spec fn grown_tree(x: Tree, y: Tree) -> bool
    decreases x, 0int,
{
    match x {
        Tree::Dir(a) => y is Dir && grown(a, t_kids(y)),
        _ => x == y,
    }
}

/// The listing `b` is `a` grown: it begins with the entries of `a`, under
/// their names and in their order, each grown, and may hold more behind them.
pub open spec fn grown(a: Listing, b: Listing) -> bool
    decreases a, 1int,
{
    a.len() == 0 || (a.len() <= b.len() && grown(a.drop_last(), b) && b[a.len() - 1].0
        == a.last().0 && grown_tree(a.last().1, b[a.len() - 1].1))
}

/// What growth says of one entry.
pub proof fn lemma_grown_at(a: Listing, b: Listing, i: int)
    requires
        grown(a, b),
        0 <= i < a.len(),
    ensures
        a.len() <= b.len(),
        b[i].0 == a[i].0,
        grown_tree(a[i].1, b[i].1),
    decreases a.len(),
{
    if i < a.len() - 1 {
        lemma_grown_at(a.drop_last(), b, i);
    }
}

/// Growth, entry by entry.
pub proof fn lemma_grown_intro(a: Listing, b: Listing)
    requires
        a.len() <= b.len(),
        forall|i: int|
            0 <= i < a.len() ==> b[i].0 == (#[trigger] a[i]).0 && grown_tree(a[i].1, b[i].1),
    ensures
        grown(a, b),
    decreases a.len(),
{
    if a.len() > 0 {
        let pre = a.drop_last();
        assert forall|i: int| 0 <= i < pre.len() implies b[i].0 == (#[trigger] pre[i]).0
            && grown_tree(pre[i].1, b[i].1) by {
            assert(pre[i] == a[i]);
        }
        lemma_grown_intro(pre, b);
        assert(a[a.len() - 1] == a.last());
    }
}

/// A listing that has grown has grown also where an entry is added behind.
pub proof fn lemma_grown_push(a: Listing, b: Listing, e: (Seq<char>, Tree))
    requires
        grown(a, b),
    ensures
        grown(a, b.push(e)),
    decreases a.len(),
{
    if a.len() > 0 {
        lemma_grown_push(a.drop_last(), b, e);
        assert(b.push(e)[a.len() - 1] == b[a.len() - 1]);
    }
}

/// Every tree is itself grown.
pub proof fn lemma_grown_tree_same(x: Tree)
    ensures
        grown_tree(x, x),
    decreases x, 0int,
{
    match x {
        Tree::Dir(a) => {
            lemma_grown_same(a);
        },
        _ => {},
    }
}

/// Every listing is itself grown.
pub proof fn lemma_grown_same(a: Listing)
    ensures
        grown(a, a),
    decreases a, 1int,
{
    if a.len() > 0 {
        lemma_grown_same(a.drop_last());
        lemma_grown_push(a.drop_last(), a.drop_last(), a.last());
        assert(a.drop_last().push(a.last()) =~= a);
        lemma_grown_tree_same(a.last().1);
    }
}

/// Growth of growth is growth, for trees.
pub proof fn lemma_grown_tree_twice(x: Tree, y: Tree, z: Tree)
    requires
        grown_tree(x, y),
        grown_tree(y, z),
    ensures
        grown_tree(x, z),
    decreases x, 0int,
{
    match x {
        Tree::Dir(a) => {
            lemma_grown_twice(a, t_kids(y), t_kids(z));
        },
        _ => {},
    }
}

/// Growth of growth is growth, for listings.
pub proof fn lemma_grown_twice(a: Listing, b: Listing, c: Listing)
    requires
        grown(a, b),
        grown(b, c),
    ensures
        grown(a, c),
    decreases a, 1int,
{
    if a.len() > 0 {
        let i = a.len() - 1;
        lemma_grown_twice(a.drop_last(), b, c);
        lemma_grown_at(b, c, i);
        lemma_grown_tree_twice(a.last().1, b[i].1, c[i].1);
    }
}

/// A name that a listing holds stays at its place when the listing grows.
pub proof fn lemma_grown_keeps_place(a: Listing, b: Listing, name: Seq<char>)
    requires
        grown(a, b),
        t_has(a, name),
    ensures
        t_pos(b, name) == t_pos(a, name),
        t_has(b, name),
{
    lemma_t_pos_is_first(a, name);
    let k = t_pos(a, name).unwrap();
    lemma_grown_at(a, b, k);
    assert(t_first(b, name, k)) by {
        assert forall|j: int| 0 <= j < k implies (#[trigger] b[j]).0 != name by {
            lemma_grown_at(a, b, j);
            assert(a[j].0 != name);
        }
    }
    lemma_t_pos(b, name, k);
}

/// Under the merge strategy, the destination only grows with an entry.
pub proof fn lemma_merge_entry_grows(d: CopyState, name: Seq<char>, x: Tree)
    requires
        !d.failed,
        !t_copy_entry(d, name, x, false).failed,
    ensures
        grown(d.tree, t_copy_entry(d, name, x, false).tree),
    decreases x, 0int,
{
    lemma_grown_same(d.tree);
    lemma_t_pos_is_first(d.tree, name);
    match x {
        Tree::Link(_) => {},
        Tree::File(c) => {
            if t_pos(d.tree, name) is None {
                lemma_grown_push(d.tree, d.tree, (name, Tree::File(c)));
            }
        },
        Tree::Dir(kids) => {
            match t_pos(d.tree, name) {
                None => {
                    let sub = t_copy_dir(
                        kids,
                        CopyState { tree: Seq::empty(), copied: d.copied, failed: false },
                        false,
                    );
                    lemma_grown_push(d.tree, d.tree, (name, Tree::Dir(sub.tree)));
                },
                Some(k) => {
                    let dk = t_kids(d.tree[k].1);
                    let start = CopyState { tree: dk, copied: d.copied, failed: false };
                    let sub = t_copy_dir(kids, start, false);
                    lemma_merge_dir_grows(start, kids);
                    let after = d.tree.update(k, (name, Tree::Dir(sub.tree)));
                    assert forall|i: int| 0 <= i < d.tree.len() implies after[i].0 == (
                    #[trigger] d.tree[i]).0 && grown_tree(d.tree[i].1, after[i].1) by {
                        lemma_grown_at(d.tree, d.tree, i);
                    }
                    lemma_grown_intro(d.tree, after);
                },
            }
        },
    }
}

/// Under the merge strategy, the destination only grows with a directory.
pub proof fn lemma_merge_dir_grows(d: CopyState, src: Listing)
    requires
        !d.failed,
        !t_copy_dir(src, d, false).failed,
    ensures
        grown(d.tree, t_copy_dir(src, d, false).tree),
    decreases src, 1int,
{
    if src.len() == 0 {
        lemma_grown_same(d.tree);
    } else {
        let pre = t_copy_dir(src.drop_last(), d, false);
        assert(t_copy_dir(src, d, false) == t_copy_entry(
            pre,
            src.last().0,
            src.last().1,
            false,
        ));
        assert(pre.failed ==> t_copy_entry(pre, src.last().0, src.last().1, false) == pre);
        lemma_merge_dir_grows(d, src.drop_last());
        lemma_merge_entry_grows(pre, src.last().0, src.last().1);
        lemma_grown_twice(d.tree, pre.tree, t_copy_dir(src, d, false).tree);
    }
}

/// An entry that a destination holds is held by the destination grown.
pub proof fn lemma_grown_holds_entry(a: Listing, b: Listing, name: Seq<char>, x: Tree)
    requires
        holds_entry(a, name, x),
        grown(a, b),
    ensures
        holds_entry(b, name, x),
    decreases x, 0int,
{
    match x {
        Tree::Link(_) => {},
        Tree::File(_) => {
            lemma_grown_keeps_place(a, b, name);
        },
        Tree::Dir(kids) => {
            lemma_grown_keeps_place(a, b, name);
            lemma_t_pos_is_first(a, name);
            let k = t_pos(a, name).unwrap();
            lemma_grown_at(a, b, k);
            lemma_grown_holds_all(t_kids(a[k].1), t_kids(b[k].1), kids);
        },
    }
}

/// A source that a destination holds is held by the destination grown.
pub proof fn lemma_grown_holds_all(a: Listing, b: Listing, src: Listing)
    requires
        holds_all(a, src),
        grown(a, b),
    ensures
        holds_all(b, src),
    decreases src, 1int,
{
    if src.len() > 0 {
        lemma_grown_holds_all(a, b, src.drop_last());
        lemma_grown_holds_entry(a, b, src.last().0, src.last().1);
    }
}

/// Under the merge strategy, the destination holds an entry after it was
/// handled.
pub proof fn lemma_merge_entry_holds(d: CopyState, name: Seq<char>, x: Tree)
    requires
        !d.failed,
        !t_copy_entry(d, name, x, false).failed,
    ensures
        holds_entry(t_copy_entry(d, name, x, false).tree, name, x),
    decreases x, 0int,
{
    let after = t_copy_entry(d, name, x, false).tree;
    lemma_t_pos_is_first(d.tree, name);
    match x {
        Tree::Link(_) => {},
        Tree::File(c) => {
            if t_pos(d.tree, name) is None {
                assert(after[d.tree.len() as int].0 == name);
            }
        },
        Tree::Dir(kids) => {
            match t_pos(d.tree, name) {
                None => {
                    let start = CopyState { tree: Seq::empty(), copied: d.copied, failed: false };
                    lemma_merge_dir_holds(start, kids);
                    let k = d.tree.len() as int;
                    assert(t_first(after, name, k)) by {
                        assert forall|j: int| 0 <= j < k implies (#[trigger] after[j]).0
                            != name by {
                            assert(d.tree[j].0 != name);
                        }
                    }
                    lemma_t_pos(after, name, k);
                },
                Some(k) => {
                    let dk = t_kids(d.tree[k].1);
                    let start = CopyState { tree: dk, copied: d.copied, failed: false };
                    lemma_merge_dir_holds(start, kids);
                    assert(t_first(after, name, k)) by {
                        assert forall|j: int| 0 <= j < k implies (#[trigger] after[j]).0
                            != name by {
                            assert(d.tree[j].0 != name);
                        }
                    }
                    lemma_t_pos(after, name, k);
                },
            }
        },
    }
}

/// Under the merge strategy, the destination holds a directory after it was
/// copied.
pub proof fn lemma_merge_dir_holds(d: CopyState, src: Listing)
    requires
        !d.failed,
        !t_copy_dir(src, d, false).failed,
    ensures
        holds_all(t_copy_dir(src, d, false).tree, src),
    decreases src, 1int,
{
    if src.len() > 0 {
        let pre = t_copy_dir(src.drop_last(), d, false);
        assert(t_copy_dir(src, d, false) == t_copy_entry(
            pre,
            src.last().0,
            src.last().1,
            false,
        ));
        assert(pre.failed ==> t_copy_entry(pre, src.last().0, src.last().1, false) == pre);
        lemma_merge_dir_holds(d, src.drop_last());
        lemma_merge_entry_grows(pre, src.last().0, src.last().1);
        lemma_grown_holds_all(pre.tree, t_copy_dir(src, d, false).tree, src.drop_last());
        lemma_merge_entry_holds(pre, src.last().0, src.last().1);
    }
}

/// Merging is idempotent: a directory that was copied into a destination
/// under the merge strategy, and is copied into what that left, changes
/// nothing and counts nothing.
pub proof fn law_merge_is_idempotent(src: Listing, d: CopyState)
    requires
        !d.failed,
        !t_copy_dir(src, d, false).failed,
    ensures
        t_copy_dir(src, t_copy_dir(src, d, false), false) == t_copy_dir(src, d, false),
{
    lemma_merge_dir_holds(d, src);
    lemma_held_is_passed_over(t_copy_dir(src, d, false), src);
}

/// The destination already holds `x` at the path `segs`: where the path is
/// empty, it holds every entry of a directory `x`; at the end of the path, a
/// link stands there or the entry is held; before the end, the directory on
/// the way is there and holds `x` at the rest of the path.
pub open spec fn holds_at(t: Listing, segs: Seq<Seq<char>>, x: Tree) -> bool
    decreases segs.len(),
{
    if segs.len() == 0 {
        match x {
            Tree::Dir(kids) => holds_all(t, kids),
            _ => true,
        }
    } else if segs.len() == 1 {
        (t_pos(t, segs[0]) is Some && t[t_pos(t, segs[0]).unwrap()].1 is Link) || holds_entry(
            t,
            segs[0],
            x,
        )
    } else {
        t_pos(t, segs[0]) is Some && t[t_pos(t, segs[0]).unwrap()].1 is Dir && holds_at(
            t_kids(t[t_pos(t, segs[0]).unwrap()].1),
            segs.drop_first(),
            x,
        )
    }
}

/// Under the merge strategy, what the destination already holds at a path is
/// passed over: nothing changes and nothing is counted.
pub proof fn lemma_held_at_is_passed_over(d: CopyState, segs: Seq<Seq<char>>, x: Tree)
    requires
        !d.failed,
        holds_at(d.tree, segs, x),
    ensures
        t_copy_at(d, segs, x, false) == d,
    decreases segs.len(),
{
    if segs.len() == 0 {
        match x {
            Tree::Dir(kids) => {
                lemma_held_is_passed_over(d, kids);
            },
            _ => {},
        }
    } else if segs.len() == 1 {
        if !(t_pos(d.tree, segs[0]) is Some && d.tree[t_pos(d.tree, segs[0]).unwrap()].1 is Link) {
            lemma_held_entry_is_passed_over(d, segs[0], x);
        }
    } else {
        lemma_t_pos_is_first(d.tree, segs[0]);
        let k = t_pos(d.tree, segs[0]).unwrap();
        let dk = t_kids(d.tree[k].1);
        let start = CopyState { tree: dk, copied: d.copied, failed: false };
        lemma_held_at_is_passed_over(start, segs.drop_first(), x);
        assert(d.tree.update(k, (segs[0], Tree::Dir(dk))) =~= d.tree);
    }
}

/// Under the merge strategy, the destination holds at a path what was copied
/// there.
pub proof fn lemma_merge_at_holds(d: CopyState, segs: Seq<Seq<char>>, x: Tree)
    requires
        !d.failed,
        !t_copy_at(d, segs, x, false).failed,
    ensures
        holds_at(t_copy_at(d, segs, x, false).tree, segs, x),
    decreases segs.len(),
{
    let after = t_copy_at(d, segs, x, false).tree;
    if segs.len() == 0 {
        match x {
            Tree::Dir(kids) => {
                lemma_merge_dir_holds(d, kids);
            },
            _ => {},
        }
    } else if segs.len() == 1 {
        if !(t_pos(d.tree, segs[0]) is Some && d.tree[t_pos(d.tree, segs[0]).unwrap()].1 is Link) {
            lemma_merge_entry_holds(d, segs[0], x);
        }
    } else {
        lemma_t_pos_is_first(d.tree, segs[0]);
        let rest = segs.drop_first();
        let k = match t_pos(d.tree, segs[0]) {
            Some(k) => k,
            None => d.tree.len() as int,
        };
        let start = match t_pos(d.tree, segs[0]) {
            Some(k) => CopyState { tree: t_kids(d.tree[k].1), copied: d.copied, failed: false },
            None => CopyState { tree: Seq::empty(), copied: d.copied, failed: false },
        };
        lemma_merge_at_holds(start, rest, x);
        assert(t_first(after, segs[0], k)) by {
            assert forall|j: int| 0 <= j < k implies (#[trigger] after[j]).0 != segs[0] by {
                assert(d.tree[j].0 != segs[0]);
            }
        }
        lemma_t_pos(after, segs[0], k);
    }
}

/// A rule with the merge strategy is idempotent: carried out again on what
/// it left, whatever the count starts from, it changes nothing and counts
/// nothing.
pub proof fn law_merge_rule_is_idempotent(repo: Listing, d: CopyState, rule: SetupCopy, c: nat)
    requires
        strategy_named(rule.strategy@) == Some(Strategy::Merge),
        !d.failed,
        !t_rule_step(repo, d, rule).failed,
    ensures
        ({
            let again = CopyState { tree: t_rule_step(repo, d, rule).tree, copied: c, failed: false };
            t_rule_step(repo, again, rule) == again
        }),
{
    let again = CopyState { tree: t_rule_step(repo, d, rule).tree, copied: c, failed: false };
    match t_find(repo, segments(rule.from@)) {
        None => {},
        Some(Tree::Link(_)) => {},
        Some(x) => {
            lemma_merge_at_holds(d, home_segments(rule.to@), x);
            lemma_held_at_is_passed_over(again, home_segments(rule.to@), x);
        },
    }
}

/// Under the merge strategy, the destination only grows with what is copied
/// to a path.
pub proof fn lemma_merge_at_grows(d: CopyState, segs: Seq<Seq<char>>, x: Tree)
    requires
        !d.failed,
        !t_copy_at(d, segs, x, false).failed,
    ensures
        grown(d.tree, t_copy_at(d, segs, x, false).tree),
    decreases segs.len(),
{
    let after = t_copy_at(d, segs, x, false).tree;
    lemma_grown_same(d.tree);
    if segs.len() == 0 {
        match x {
            Tree::Dir(kids) => {
                lemma_merge_dir_grows(d, kids);
            },
            _ => {},
        }
    } else if segs.len() == 1 {
        if !(t_pos(d.tree, segs[0]) is Some && d.tree[t_pos(d.tree, segs[0]).unwrap()].1 is Link) {
            lemma_merge_entry_grows(d, segs[0], x);
        }
    } else {
        lemma_t_pos_is_first(d.tree, segs[0]);
        let rest = segs.drop_first();
        match t_pos(d.tree, segs[0]) {
            None => {
                let start = CopyState { tree: Seq::empty(), copied: d.copied, failed: false };
                let sub = t_copy_at(start, rest, x, false);
                lemma_grown_push(d.tree, d.tree, (segs[0], Tree::Dir(sub.tree)));
            },
            Some(k) => {
                let start = CopyState { tree: t_kids(d.tree[k].1), copied: d.copied, failed: false };
                lemma_merge_at_grows(start, rest, x);
                assert forall|i: int| 0 <= i < d.tree.len() implies after[i].0 == (
                #[trigger] d.tree[i]).0 && grown_tree(d.tree[i].1, after[i].1) by {
                    lemma_grown_at(d.tree, d.tree, i);
                }
                lemma_grown_intro(d.tree, after);
            },
        }
    }
}

/// What a destination holds at a path is held by the destination grown.
pub proof fn lemma_grown_holds_at(a: Listing, b: Listing, segs: Seq<Seq<char>>, x: Tree)
    requires
        holds_at(a, segs, x),
        grown(a, b),
    ensures
        holds_at(b, segs, x),
    decreases segs.len(),
{
    if segs.len() == 0 {
        match x {
            Tree::Dir(kids) => {
                lemma_grown_holds_all(a, b, kids);
            },
            _ => {},
        }
    } else if segs.len() == 1 {
        if t_pos(a, segs[0]) is Some && a[t_pos(a, segs[0]).unwrap()].1 is Link {
            lemma_t_pos_is_first(a, segs[0]);
            lemma_grown_keeps_place(a, b, segs[0]);
            lemma_grown_at(a, b, t_pos(a, segs[0]).unwrap());
        } else {
            lemma_grown_holds_entry(a, b, segs[0], x);
        }
    } else {
        lemma_t_pos_is_first(a, segs[0]);
        let k = t_pos(a, segs[0]).unwrap();
        lemma_grown_keeps_place(a, b, segs[0]);
        lemma_grown_at(a, b, k);
        lemma_grown_holds_at(t_kids(a[k].1), t_kids(b[k].1), segs.drop_first(), x);
    }
}

/// The destination already holds what a rule copies.
pub open spec fn holds_rule(t: Listing, repo: Listing, rule: SetupCopy) -> bool {
    match t_find(repo, segments(rule.from@)) {
        None => true,
        Some(Tree::Link(_)) => true,
        Some(x) => holds_at(t, home_segments(rule.to@), x),
    }
}

/// Every rule of the sequence has the merge strategy.
pub open spec fn all_merge(rules: Seq<SetupCopy>) -> bool {
    forall|i: int|
        0 <= i < rules.len() ==> strategy_named((#[trigger] rules[i]).strategy@) == Some(
            Strategy::Merge,
        )
}

/// Rules with the merge strategy only make the destination grow, and leave a
/// destination that holds what each of them copies.
pub proof fn lemma_merge_rules_hold(repo: Listing, rules: Seq<SetupCopy>, d: CopyState)
    requires
        all_merge(rules),
        !d.failed,
        !t_run_rules(repo, rules, d).failed,
    ensures
        grown(d.tree, t_run_rules(repo, rules, d).tree),
        forall|i: int|
            0 <= i < rules.len() ==> holds_rule(
                t_run_rules(repo, rules, d).tree,
                repo,
                #[trigger] rules[i],
            ),
    decreases rules.len(),
{
    let after = t_run_rules(repo, rules, d);
    if rules.len() == 0 {
        lemma_grown_same(d.tree);
    } else {
        let pre = t_run_rules(repo, rules.drop_last(), d);
        let rule = rules.last();
        assert(after == t_rule_step(repo, pre, rule));
        assert(strategy_named(rules[rules.len() - 1].strategy@) == Some(Strategy::Merge));
        assert forall|i: int| 0 <= i < rules.drop_last().len() implies strategy_named(
            (#[trigger] rules.drop_last()[i]).strategy@,
        ) == Some(Strategy::Merge) by {
            assert(rules.drop_last()[i] == rules[i]);
        }
        lemma_merge_rules_hold(repo, rules.drop_last(), d);
        lemma_grown_same(pre.tree);
        match t_find(repo, segments(rule.from@)) {
            None => {},
            Some(Tree::Link(_)) => {},
            Some(x) => {
                lemma_merge_at_grows(pre, home_segments(rule.to@), x);
                lemma_merge_at_holds(pre, home_segments(rule.to@), x);
            },
        }
        lemma_grown_twice(d.tree, pre.tree, after.tree);
        assert forall|i: int| 0 <= i < rules.len() implies holds_rule(
            after.tree,
            repo,
            #[trigger] rules[i],
        ) by {
            if i < rules.len() - 1 {
                assert(rules.drop_last()[i] == rules[i]);
                assert(holds_rule(pre.tree, repo, rules.drop_last()[i]));
                match t_find(repo, segments(rules[i].from@)) {
                    None => {},
                    Some(Tree::Link(_)) => {},
                    Some(y) => {
                        lemma_grown_holds_at(pre.tree, after.tree, home_segments(rules[i].to@), y);
                    },
                }
            }
        }
    }
}

/// Rules with the merge strategy pass over a destination that holds what
/// each of them copies: nothing changes and nothing is counted.
pub proof fn lemma_held_rules_are_passed_over(repo: Listing, rules: Seq<SetupCopy>, d: CopyState)
    requires
        all_merge(rules),
        !d.failed,
        forall|i: int| 0 <= i < rules.len() ==> holds_rule(d.tree, repo, #[trigger] rules[i]),
    ensures
        t_run_rules(repo, rules, d) == d,
    decreases rules.len(),
{
    if rules.len() > 0 {
        let rule = rules.last();
        assert forall|i: int| 0 <= i < rules.drop_last().len() implies strategy_named(
            (#[trigger] rules.drop_last()[i]).strategy@,
        ) == Some(Strategy::Merge) && holds_rule(d.tree, repo, rules.drop_last()[i]) by {
            assert(rules.drop_last()[i] == rules[i]);
        }
        lemma_held_rules_are_passed_over(repo, rules.drop_last(), d);
        assert(rules[rules.len() - 1] == rule);
        match t_find(repo, segments(rule.from@)) {
            None => {},
            Some(Tree::Link(_)) => {},
            Some(x) => {
                lemma_held_at_is_passed_over(d, home_segments(rule.to@), x);
            },
        }
    }
}

/// A manifest whose rules all have the merge strategy, run twice, leaves
/// after the second run what the first run left, and the second run copies
/// nothing.
pub proof fn law_merge_run_twice(repo: Listing, rules: Seq<SetupCopy>, t: Listing)
    requires
        all_merge(rules),
        !t_run_rules(repo, rules, CopyState { tree: t, copied: 0, failed: false }).failed,
    ensures
        ({
            let first = t_run_rules(repo, rules, CopyState { tree: t, copied: 0, failed: false });
            let again = CopyState { tree: first.tree, copied: 0, failed: false };
            t_run_rules(repo, rules, again) == again
        }),
{
    let start = CopyState { tree: t, copied: 0, failed: false };
    let first = t_run_rules(repo, rules, start);
    let again = CopyState { tree: first.tree, copied: 0, failed: false };
    lemma_merge_rules_hold(repo, rules, start);
    lemma_held_rules_are_passed_over(repo, rules, again);
}

/// The replace strategy overwrites: after a file was copied under it, the
/// destination holds a file of that name with the text of the source.
pub proof fn law_replace_overwrites(d: CopyState, name: Seq<char>, text: Seq<char>)
    requires
        !d.failed,
        !t_copy_entry(d, name, Tree::File(text), true).failed,
    ensures
        ({
            let after = t_copy_entry(d, name, Tree::File(text), true);
            &&& t_pos(after.tree, name) is Some
            &&& after.tree[t_pos(after.tree, name).unwrap()] == (name, Tree::File(text))
            &&& after.copied == bump(d.copied)
        }),
{
    let after = t_copy_entry(d, name, Tree::File(text), true).tree;
    lemma_t_pos_is_first(d.tree, name);
    let k = match t_pos(d.tree, name) {
        Some(k) => k,
        None => d.tree.len() as int,
    };
    assert(t_first(after, name, k)) by {
        assert forall|j: int| 0 <= j < k implies (#[trigger] after[j]).0 != name by {
            assert(d.tree[j].0 != name);
        }
    }
    lemma_t_pos(after, name, k);
}

/// The names of a tree are unique: no directory in it holds a name twice.
pub open spec fn t_unique(x: Tree) -> bool
    decreases x, 0int,
{
    match x {
        Tree::Dir(l) => t_unique_all(l),
        _ => true,
    }
}

/// No name stands twice in the listing, nor in any directory under it.
pub open spec fn t_unique_all(l: Listing) -> bool
    decreases l, 1int,
{
    l.len() == 0 || (t_unique_all(l.drop_last()) && !t_has(l.drop_last(), l.last().0) && t_unique(
        l.last().1,
    ))
}

/// The destination holds a copy of an entry of the source: for a file, a
/// file of its name with its text; for a directory, a directory of its name
/// that holds a copy of every entry of it in turn. A link asks for nothing.
pub open spec fn mirrors_entry(dest: Listing, name: Seq<char>, x: Tree) -> bool
    decreases x, 0int,
{
    match x {
        Tree::Link(_) => true,
        Tree::File(c) => t_pos(dest, name) is Some && dest[t_pos(dest, name).unwrap()].1
            == Tree::File(c),
        Tree::Dir(kids) => t_pos(dest, name) is Some && dest[t_pos(dest, name).unwrap()].1 is Dir
            && mirrors_all(t_kids(dest[t_pos(dest, name).unwrap()].1), kids),
    }
}

/// The destination holds a copy of every entry of the source.
pub open spec fn mirrors_all(dest: Listing, src: Listing) -> bool
    decreases src, 1int,
{
    src.len() == 0 || (mirrors_all(dest, src.drop_last()) && mirrors_entry(
        dest,
        src.last().0,
        src.last().1,
    ))
}

/// The listings `a` and `b` hold the same under every name but `n`.
pub open spec fn same_but(a: Listing, b: Listing, n: Seq<char>) -> bool {
    forall|m: Seq<char>|
        m != n ==> #[trigger] t_pos(b, m) == t_pos(a, m) && (t_pos(a, m) is Some ==> b[t_pos(
            a,
            m,
        ).unwrap()] == a[t_pos(a, m).unwrap()])
}

/// Handling an entry leaves the destination as it was under every other
/// name.
pub proof fn lemma_entry_keeps_others(d: CopyState, name: Seq<char>, x: Tree, replace: bool)
    requires
        !d.failed,
    ensures
        same_but(d.tree, t_copy_entry(d, name, x, replace).tree, name),
{
    let a = d.tree;
    let b = t_copy_entry(d, name, x, replace).tree;
    lemma_t_pos_is_first(a, name);
    assert forall|m: Seq<char>| m != name implies #[trigger] t_pos(b, m) == t_pos(a, m) && (t_pos(
        a,
        m,
    ) is Some ==> b[t_pos(a, m).unwrap()] == a[t_pos(a, m).unwrap()]) by {
        lemma_t_pos_is_first(a, m);
        assert(b.len() >= a.len());
        assert(forall|j: int| 0 <= j < a.len() ==> (#[trigger] b[j]).0 == a[j].0);
        assert(forall|j: int| 0 <= j < a.len() && a[j].0 != name ==> #[trigger] b[j] == a[j]);
        assert(forall|j: int| a.len() <= j < b.len() ==> (#[trigger] b[j]).0 == name);
        match t_pos(a, m) {
            Some(k) => {
                assert(t_first(b, m, k));
                lemma_t_pos(b, m, k);
            },
            None => {
                assert(!t_has(b, m)) by {
                    assert forall|j: int| 0 <= j < b.len() implies (#[trigger] b[j]).0 != m by {
                        if j < a.len() {
                            assert(a[j].0 != m);
                        }
                    }
                }
            },
        }
    }
}

/// What a destination mirrors under names other than `n` is mirrored by a
/// listing that holds the same under every name but `n`.
pub proof fn lemma_others_stay_mirrored(a: Listing, b: Listing, n: Seq<char>, src: Listing)
    requires
        same_but(a, b, n),
        !t_has(src, n),
        mirrors_all(a, src),
    ensures
        mirrors_all(b, src),
    decreases src.len(),
{
    if src.len() > 0 {
        let pre = src.drop_last();
        assert(!t_has(pre, n)) by {
            assert forall|j: int| 0 <= j < pre.len() implies (#[trigger] pre[j]).0 != n by {
                assert(src[j].0 != n);
            }
        }
        lemma_others_stay_mirrored(a, b, n, pre);
        let m = src.last().0;
        let y = src.last().1;
        assert(src[src.len() - 1].0 != n);
        assert(t_pos(b, m) == t_pos(a, m));
        assert(mirrors_entry(a, m, y));
        assert(mirrors_entry(b, m, y));
    }
}

/// Under the replace strategy, the destination mirrors an entry after it
/// was handled.
pub proof fn lemma_replace_entry_mirrors(d: CopyState, name: Seq<char>, x: Tree)
    requires
        !d.failed,
        !t_copy_entry(d, name, x, true).failed,
        t_unique(x),
    ensures
        mirrors_entry(t_copy_entry(d, name, x, true).tree, name, x),
    decreases x, 0int,
{
    let after = t_copy_entry(d, name, x, true).tree;
    lemma_t_pos_is_first(d.tree, name);
    let k = match t_pos(d.tree, name) {
        Some(k) => k,
        None => d.tree.len() as int,
    };
    match x {
        Tree::Link(_) => {},
        Tree::File(c) => {
            assert(t_first(after, name, k)) by {
                assert forall|j: int| 0 <= j < k implies (#[trigger] after[j]).0 != name by {
                    assert(d.tree[j].0 != name);
                }
            }
            lemma_t_pos(after, name, k);
        },
        Tree::Dir(kids) => {
            let start = match t_pos(d.tree, name) {
                Some(k) => CopyState { tree: t_kids(d.tree[k].1), copied: d.copied, failed: false },
                None => CopyState { tree: Seq::empty(), copied: d.copied, failed: false },
            };
            lemma_replace_dir_mirrors(start, kids);
            assert(t_first(after, name, k)) by {
                assert forall|j: int| 0 <= j < k implies (#[trigger] after[j]).0 != name by {
                    assert(d.tree[j].0 != name);
                }
            }
            lemma_t_pos(after, name, k);
        },
    }
}

/// Under the replace strategy, the destination mirrors a directory after it
/// was copied.
pub proof fn lemma_replace_dir_mirrors(d: CopyState, src: Listing)
    requires
        !d.failed,
        !t_copy_dir(src, d, true).failed,
        t_unique_all(src),
    ensures
        mirrors_all(t_copy_dir(src, d, true).tree, src),
    decreases src, 1int,
{
    if src.len() > 0 {
        let pre = t_copy_dir(src.drop_last(), d, true);
        let after = t_copy_dir(src, d, true);
        assert(after == t_copy_entry(pre, src.last().0, src.last().1, true));
        assert(pre.failed ==> t_copy_entry(pre, src.last().0, src.last().1, true) == pre);
        lemma_replace_dir_mirrors(d, src.drop_last());
        lemma_entry_keeps_others(pre, src.last().0, src.last().1, true);
        lemma_others_stay_mirrored(pre.tree, after.tree, src.last().0, src.drop_last());
        lemma_replace_entry_mirrors(pre, src.last().0, src.last().1);
    }
}

/// The replace strategy overwrites a whole tree: after a directory whose
/// names are unique was copied under it, every file of the directory stands
/// in the destination with the text of the source, at its place in a
/// directory of the same name. What the destination holds under names that
/// the source lacks is left alone.
pub proof fn law_replace_mirrors_the_source(src: Listing, d: CopyState)
    requires
        !d.failed,
        !t_copy_dir(src, d, true).failed,
        t_unique_all(src),
    ensures
        mirrors_all(t_copy_dir(src, d, true).tree, src),
        forall|m: Seq<char>|
            !t_has(src, m) ==> #[trigger] t_pos(t_copy_dir(src, d, true).tree, m) == t_pos(
                d.tree,
                m,
            ) && (t_pos(d.tree, m) is Some ==> t_copy_dir(src, d, true).tree[t_pos(
                d.tree,
                m,
            ).unwrap()] == d.tree[t_pos(d.tree, m).unwrap()]),
{
    lemma_replace_dir_mirrors(d, src);
    assert forall|m: Seq<char>| !t_has(src, m) implies #[trigger] t_pos(
        t_copy_dir(src, d, true).tree,
        m,
    ) == t_pos(d.tree, m) && (t_pos(d.tree, m) is Some ==> t_copy_dir(src, d, true).tree[t_pos(
        d.tree,
        m,
    ).unwrap()] == d.tree[t_pos(d.tree, m).unwrap()]) by {
        lemma_dir_keeps_others(src, d, m);
    }
}

/// Copying a directory leaves the destination as it was under every name
/// that the directory lacks.
pub proof fn lemma_dir_keeps_others(src: Listing, d: CopyState, m: Seq<char>)
    requires
        !d.failed,
        !t_has(src, m),
    ensures
        t_pos(t_copy_dir(src, d, true).tree, m) == t_pos(d.tree, m),
        t_pos(d.tree, m) is Some ==> t_copy_dir(src, d, true).tree[t_pos(d.tree, m).unwrap()]
            == d.tree[t_pos(d.tree, m).unwrap()],
    decreases src.len(),
{
    if src.len() > 0 {
        let pre = t_copy_dir(src.drop_last(), d, true);
        assert(!t_has(src.drop_last(), m)) by {
            assert forall|j: int| 0 <= j < src.drop_last().len() implies (
            #[trigger] src.drop_last()[j]).0 != m by {
                assert(src[j].0 != m);
            }
        }
        lemma_dir_keeps_others(src.drop_last(), d, m);
        assert(src[src.len() - 1].0 != m);
        let after = t_copy_dir(src, d, true);
        assert(after == t_copy_entry(pre, src.last().0, src.last().1, true));
        if pre.failed {
            assert(after == pre);
        } else {
            lemma_entry_keeps_others(pre, src.last().0, src.last().1, true);
            assert(t_pos(after.tree, m) == t_pos(pre.tree, m));
        }
    }
}

/// The destination holds a copy of `x` at the path `segs`: where the path is
/// empty, it mirrors every entry of a directory `x`; at the end of the path,
/// a link stands there or the entry is mirrored; before the end, the
/// directory on the way is there and holds the copy at the rest of the path.
pub open spec fn mirrors_at(t: Listing, segs: Seq<Seq<char>>, x: Tree) -> bool
    decreases segs.len(),
{
    if segs.len() == 0 {
        match x {
            Tree::Dir(kids) => mirrors_all(t, kids),
            _ => true,
        }
    } else if segs.len() == 1 {
        (t_pos(t, segs[0]) is Some && t[t_pos(t, segs[0]).unwrap()].1 is Link) || mirrors_entry(
            t,
            segs[0],
            x,
        )
    } else {
        t_pos(t, segs[0]) is Some && t[t_pos(t, segs[0]).unwrap()].1 is Dir && mirrors_at(
            t_kids(t[t_pos(t, segs[0]).unwrap()].1),
            segs.drop_first(),
            x,
        )
    }
}

/// Under the replace strategy, the destination holds at a path a copy of
/// what was copied there.
pub proof fn lemma_replace_at_mirrors(d: CopyState, segs: Seq<Seq<char>>, x: Tree)
    requires
        !d.failed,
        !t_copy_at(d, segs, x, true).failed,
        t_unique(x),
    ensures
        mirrors_at(t_copy_at(d, segs, x, true).tree, segs, x),
    decreases segs.len(),
{
    let after = t_copy_at(d, segs, x, true).tree;
    if segs.len() == 0 {
        match x {
            Tree::Dir(kids) => {
                lemma_replace_dir_mirrors(d, kids);
            },
            _ => {},
        }
    } else if segs.len() == 1 {
        if !(t_pos(d.tree, segs[0]) is Some && d.tree[t_pos(d.tree, segs[0]).unwrap()].1 is Link) {
            lemma_replace_entry_mirrors(d, segs[0], x);
        }
    } else {
        lemma_t_pos_is_first(d.tree, segs[0]);
        let rest = segs.drop_first();
        let k = match t_pos(d.tree, segs[0]) {
            Some(k) => k,
            None => d.tree.len() as int,
        };
        let start = match t_pos(d.tree, segs[0]) {
            Some(k) => CopyState { tree: t_kids(d.tree[k].1), copied: d.copied, failed: false },
            None => CopyState { tree: Seq::empty(), copied: d.copied, failed: false },
        };
        lemma_replace_at_mirrors(start, rest, x);
        assert(t_first(after, segs[0], k)) by {
            assert forall|j: int| 0 <= j < k implies (#[trigger] after[j]).0 != segs[0] by {
                assert(d.tree[j].0 != segs[0]);
            }
        }
        lemma_t_pos(after, segs[0], k);
    }
}

/// A manifest of one rule with the replace strategy overwrites: after a run
/// that went through, the destination of the rule holds a copy of every
/// file of the rule's source, whatever it held under those names before,
/// unless the destination is a link, which is never touched. The source is
/// a file or a directory, and its names are taken to be unique.
pub proof fn law_replace_run_mirrors(repo: Listing, rules: Seq<SetupCopy>, t: Listing)
    requires
        rules.len() == 1,
        strategy_named(rules[0].strategy@) == Some(Strategy::Replace),
        !t_run_rules(repo, rules, CopyState { tree: t, copied: 0, failed: false }).failed,
        t_find(repo, segments(rules[0].from@)) is Some,
        !(t_find(repo, segments(rules[0].from@)).unwrap() is Link),
        t_unique(t_find(repo, segments(rules[0].from@)).unwrap()),
    ensures
        mirrors_at(
            t_run_rules(repo, rules, CopyState { tree: t, copied: 0, failed: false }).tree,
            home_segments(rules[0].to@),
            t_find(repo, segments(rules[0].from@)).unwrap(),
        ),
{
    let start = CopyState { tree: t, copied: 0, failed: false };
    let x = t_find(repo, segments(rules[0].from@)).unwrap();
    assert(rules.drop_last().len() == 0);
    assert(t_run_rules(repo, rules.drop_last(), start) == start);
    assert(rules.last() == rules[0]);
    lemma_replace_at_mirrors(start, home_segments(rules[0].to@), x);
}

} // verus!
