//! The source library: groups, skills and profiles found in a directory tree.
//!
//! A library is the listing of its root directory. It may be a local library
//! or a tree that was just fetched; nothing here tells the two apart.

use vstd::prelude::*;
use vstd::string::*;
use crate::error::SkillError;
use crate::text::{owned, same_text};
use crate::tree::{
    children, Entry, find_entry, holds_text, is_group, is_skill, lookup, Node, node_is_group,
    node_is_skill, pair_texts, texts,
};

verus! {

/// A named, ordered set of skills that are installed together.
#[derive(Debug, Clone, PartialEq, Eq)]
pub struct Profile {
    pub name: String,
    pub description: String,
    /// The skills, each as group and name.
    pub skills: Vec<(String, String)>,
}

/// The name of the profile that holds every skill of the library: `all`.
pub open spec fn all_text() -> Seq<char> {
    seq!['a', 'l', 'l']
}

/// The names of the groups among `es`, in order, each once.
pub open spec fn group_names(es: Seq<Entry>) -> Seq<Seq<char>>
    decreases es.len(),
{
    if es.len() == 0 {
        Seq::empty()
    } else {
        let pre = group_names(es.drop_last());
        if is_group(es.last().node) && !pre.contains(es.last().name@) {
            pre.push(es.last().name@)
        } else {
            pre
        }
    }
}

/// The names of the skills among `es`, in order.
pub open spec fn skill_names(es: Seq<Entry>) -> Seq<Seq<char>>
    decreases es.len(),
{
    if es.len() == 0 {
        Seq::empty()
    } else {
        let pre = skill_names(es.drop_last());
        if is_skill(es.last().node) {
            pre.push(es.last().name@)
        } else {
            pre
        }
    }
}

/// The names of the skills in the directory `g` of the library.
pub open spec fn group_skills(root: Seq<Entry>, g: Seq<char>) -> Seq<Seq<char>> {
    match lookup(root, g) {
        Some(i) => skill_names(children(root[i].node)),
        None => Seq::empty(),
    }
}

/// The library holds a skill called `name` in its directory `g`.
pub open spec fn skill_at(root: Seq<Entry>, g: Seq<char>, name: Seq<char>) -> bool {
    match lookup(root, g) {
        Some(i) => match lookup(children(root[i].node), name) {
            Some(k) => is_skill(children(root[i].node)[k].node),
            None => false,
        },
        None => false,
    }
}

/// The library's entry `g` is a group, and holds a skill called `name`.
pub open spec fn group_holds(root: Seq<Entry>, g: Seq<char>, name: Seq<char>) -> bool {
    match lookup(root, g) {
        Some(i) => is_group(root[i].node) && skill_at(root, g, name),
        None => false,
    }
}

/// `k` is the first group of the library, in listing order, that holds a
/// skill called `name`.
pub open spec fn first_group_with(root: Seq<Entry>, name: Seq<char>, k: int) -> bool {
    &&& 0 <= k < group_names(root).len()
    &&& group_holds(root, group_names(root)[k], name)
    &&& forall|j: int| 0 <= j < k ==> !group_holds(root, #[trigger] group_names(root)[j], name)
}

/// Each name of `names` paired with the group `g`.
pub open spec fn pairs_of(g: Seq<char>, names: Seq<Seq<char>>) -> Seq<(Seq<char>, Seq<char>)> {
    names.map_values(|n: Seq<char>| (g, n))
}

/// The skills of the given groups, group by group.
pub open spec fn skills_under(root: Seq<Entry>, groups: Seq<Seq<char>>) -> Seq<
    (Seq<char>, Seq<char>),
>
    decreases groups.len(),
{
    if groups.len() == 0 {
        Seq::empty()
    } else {
        skills_under(root, groups.drop_last()) + pairs_of(
            groups.last(),
            group_skills(root, groups.last()),
        )
    }
}

/// Every skill of the library, in group order.
pub open spec fn every_skill(root: Seq<Entry>) -> Seq<(Seq<char>, Seq<char>)> {
    skills_under(root, group_names(root))
}

/// The description of the profile `all`: `every skill`.
pub open spec fn all_description() -> Seq<char> {
    seq!['e', 'v', 'e', 'r', 'y', ' ', 's', 'k', 'i', 'l', 'l']
}

/// The number of profiles that are listed before the declared ones.
pub open spec fn builtin_count(builtin: bool) -> int {
    if builtin {
        1
    } else {
        0
    }
}

/// `i` is the first declared profile called `name`.
pub open spec fn declared_at(declared: Seq<Profile>, name: Seq<char>, i: int) -> bool {
    &&& 0 <= i < declared.len()
    &&& declared[i].name@ == name
    &&& forall|j: int| 0 <= j < i ==> (#[trigger] declared[j]).name@ != name
}

/// The groups of a library: the names of its top-level directories that are
/// groups, in listing order, each once.
pub fn skill_groups(root: &Vec<Entry>) -> (r: Vec<String>)
    ensures
        texts(r@) == group_names(root@),
{
    let mut out: Vec<String> = Vec::new();
    let n: usize = root.len();
    let mut i: usize = 0;
    assert(texts(out@) =~= group_names(root@.subrange(0, 0)));
    while i < n
        invariant
            n == root@.len(),
            i <= n,
            texts(out@) == group_names(root@.subrange(0, i as int)),
        decreases n - i,
    {
        proof {
            assert(root@.subrange(0, i + 1).drop_last() =~= root@.subrange(0, i as int));
        }
        if node_is_group(&root[i].node) && !holds_text(&out, root[i].name.as_str()) {
            let ghost before = out@;
            out.push(root[i].name.clone());
            assert(texts(out@) =~= texts(before).push(root@[i as int].name@));
        }
        i += 1;
    }
    assert(root@.subrange(0, n as int) =~= root@);
    out
}

/// The names of the skills among the entries of one directory, in order.
pub fn skills_among(es: &Vec<Entry>) -> (r: Vec<String>)
    ensures
        texts(r@) == skill_names(es@),
{
    let mut out: Vec<String> = Vec::new();
    let n: usize = es.len();
    let mut i: usize = 0;
    assert(texts(out@) =~= skill_names(es@.subrange(0, 0)));
    while i < n
        invariant
            n == es@.len(),
            i <= n,
            texts(out@) == skill_names(es@.subrange(0, i as int)),
        decreases n - i,
    {
        proof {
            assert(es@.subrange(0, i + 1).drop_last() =~= es@.subrange(0, i as int));
        }
        if node_is_skill(&es[i].node) {
            let ghost before = out@;
            out.push(es[i].name.clone());
            assert(texts(out@) =~= texts(before).push(es@[i as int].name@));
        }
        i += 1;
    }
    assert(es@.subrange(0, n as int) =~= es@);
    out
}

/// The skills of one group: the children of the library's directory `group`
/// that are skills, in listing order. A group that the library lacks has none.
pub fn skills_in_group(root: &Vec<Entry>, group: &str) -> (r: Vec<String>)
    ensures
        texts(r@) == group_skills(root@, group@),
{
    match find_entry(root, group) {
        Some(i) => match &root[i].node {
            Node::Dir { entries } => skills_among(entries),
            _ => {
                let out: Vec<String> = Vec::new();
                assert(texts(out@) =~= skill_names(Seq::<Entry>::empty()));
                out
            },
        },
        None => {
            let out: Vec<String> = Vec::new();
            assert(texts(out@) =~= Seq::<Seq<char>>::empty());
            out
        },
    }
}

/// Whether the library holds a skill called `name` in its directory `group`.
pub fn has_skill_at(root: &Vec<Entry>, group: &str, name: &str) -> (r: bool)
    ensures
        r == skill_at(root@, group@, name@),
{
    match find_entry(root, group) {
        Some(i) => match &root[i].node {
            Node::Dir { entries } => match find_entry(entries, name) {
                Some(k) => node_is_skill(&entries[k].node),
                None => false,
            },
            _ => false,
        },
        None => false,
    }
}

/// Whether the library's entry `group` is a group that holds a skill called
/// `name`.
pub fn group_has_skill(root: &Vec<Entry>, group: &str, name: &str) -> (r: bool)
    ensures
        r == group_holds(root@, group@, name@),
{
    match find_entry(root, group) {
        Some(i) => node_is_group(&root[i].node) && has_skill_at(root, group, name),
        None => false,
    }
}

/// Finds a skill by name: the first group, in listing order, that holds a
/// skill of that name. What is found is a skill in a group: the entry of the
/// group's name is a directory without the marker file, and its entry of the
/// skill's name is a directory with it. `None` says that no group holds one,
/// which is an ordinary outcome.
pub fn find_skill_in_source(root: &Vec<Entry>, name: &str) -> (r: Option<String>)
    ensures
        match r {
            Some(g) => exists|k: int|
                first_group_with(root@, name@, k) && #[trigger] group_names(root@)[k] == g@,
            None => forall|k: int|
                0 <= k < group_names(root@).len() ==> !group_holds(
                    root@,
                    #[trigger] group_names(root@)[k],
                    name@,
                ),
        },
{
    let groups: Vec<String> = skill_groups(root);
    let n: usize = groups.len();
    let mut i: usize = 0;
    while i < n
        invariant
            n == groups@.len(),
            i <= n,
            texts(groups@) == group_names(root@),
            forall|j: int|
                0 <= j < i ==> !group_holds(root@, #[trigger] group_names(root@)[j], name@),
        decreases n - i,
    {
        assert(texts(groups@)[i as int] == groups@[i as int]@);
        if group_has_skill(root, groups[i].as_str(), name) {
            assert(first_group_with(root@, name@, i as int));
            return Some(groups[i].clone());
        }
        i += 1;
    }
    None
}

/// Every skill of the library as group and name: group by group in listing
/// order, and within a group in listing order.
pub fn all_skills(root: &Vec<Entry>) -> (r: Vec<(String, String)>)
    ensures
        pair_texts(r@) == every_skill(root@),
{
    let groups: Vec<String> = skill_groups(root);
    let mut out: Vec<(String, String)> = Vec::new();
    let n: usize = groups.len();
    let mut i: usize = 0;
    assert(pair_texts(out@) =~= skills_under(root@, texts(groups@).subrange(0, 0)));
    while i < n
        invariant
            n == groups@.len(),
            i <= n,
            texts(groups@) == group_names(root@),
            pair_texts(out@) == skills_under(root@, texts(groups@).subrange(0, i as int)),
        decreases n - i,
    {
        let names: Vec<String> = skills_in_group(root, groups[i].as_str());
        let m: usize = names.len();
        let mut k: usize = 0;
        let ghost base = pair_texts(out@);
        let ghost g = groups@[i as int]@;
        assert(texts(groups@)[i as int] == g);
        assert(pair_texts(out@) =~= base + pairs_of(g, texts(names@).subrange(0, 0)));
        while k < m
            invariant
                m == names@.len(),
                k <= m,
                i < n,
                n == groups@.len(),
                g == groups@[i as int]@,
                pair_texts(out@) == base + pairs_of(g, texts(names@).subrange(0, k as int)),
            decreases m - k,
        {
            let ghost before = out@;
            out.push((groups[i].clone(), names[k].clone()));
            assert(pair_texts(out@) =~= pair_texts(before).push((g, names@[k as int]@)));
            assert(texts(names@).subrange(0, k + 1) =~= texts(names@).subrange(0, k as int).push(
                names@[k as int]@,
            ));
            assert(pairs_of(g, texts(names@).subrange(0, k + 1)) =~= pairs_of(
                g,
                texts(names@).subrange(0, k as int),
            ).push((g, names@[k as int]@)));
            assert(pair_texts(out@) =~= base + pairs_of(g, texts(names@).subrange(0, k + 1)));
            k += 1;
        }
        proof {
            assert(texts(names@).subrange(0, m as int) =~= texts(names@));
            let gs = texts(groups@).subrange(0, i + 1);
            assert(gs.drop_last() =~= texts(groups@).subrange(0, i as int));
            assert(gs.last() == g);
        }
        i += 1;
    }
    assert(texts(groups@).subrange(0, n as int) =~= texts(groups@));
    out
}

/// A copy of a list of pairs.
pub fn copy_pairs(v: &Vec<(String, String)>) -> (r: Vec<(String, String)>)
    ensures
        pair_texts(r@) == pair_texts(v@),
{
    let mut out: Vec<(String, String)> = Vec::new();
    let n: usize = v.len();
    let mut i: usize = 0;
    while i < n
        invariant
            n == v@.len(),
            i <= n,
            out@.len() == i,
            forall|j: int| 0 <= j < i ==> (#[trigger] out@[j]).0@ == v@[j].0@ && out@[j].1@ == v@[j].1@,
        decreases n - i,
    {
        out.push((v[i].0.clone(), v[i].1.clone()));
        i += 1;
    }
    assert(pair_texts(out@) =~= pair_texts(v@));
    out
}

/// The profile called `name`.
///
/// `all` is made up on the spot of every skill of the library. Any other name
/// is looked up among the declared profiles, and the first of that name is
/// given; where none has it the profile is not found. Whether the skills of a
/// declared profile still exist is not looked at here.
pub fn resolve_profile(name: &str, root: &Vec<Entry>, declared: &Vec<Profile>) -> (r: Result<
    Profile,
    SkillError,
>)
    ensures
        match r {
            Ok(p) => p.name@ == name@ && if name@ == all_text() {
                p.description@ == all_description() && pair_texts(p.skills@) == every_skill(root@)
            } else {
                exists|i: int|
                    #[trigger] declared_at(declared@, name@, i) && p.description@
                        == declared@[i].description@ && pair_texts(p.skills@) == pair_texts(
                        declared@[i].skills@,
                    )
            },
            Err(e) => e == SkillError::NotFound && name@ != all_text() && forall|i: int|
                0 <= i < declared@.len() ==> (#[trigger] declared@[i]).name@ != name@,
        },
{
    proof {
        reveal_strlit("all");
        reveal_strlit("every skill");
        assert("all"@ =~= all_text());
        assert("every skill"@ =~= all_description());
    }
    if same_text(name, "all") {
        return Ok(
            Profile {
                name: owned(name),
                description: owned("every skill"),
                skills: all_skills(root),
            },
        );
    }
    let n: usize = declared.len();
    let mut i: usize = 0;
    while i < n
        invariant
            n == declared@.len(),
            i <= n,
            name@ != all_text(),
            forall|j: int| 0 <= j < i ==> (#[trigger] declared@[j]).name@ != name@,
        decreases n - i,
    {
        if same_text(declared[i].name.as_str(), name) {
            let found = Profile {
                name: declared[i].name.clone(),
                description: declared[i].description.clone(),
                skills: copy_pairs(&declared[i].skills),
            };
            assert(declared_at(declared@, name@, i as int) && found.description@
                == declared@[i as int].description@ && pair_texts(found.skills@) == pair_texts(
                declared@[i as int].skills@,
            ));
            return Ok(found);
        }
        i += 1;
    }
    Err(SkillError::NotFound)
}

/// The profiles that can be chosen, each with its name, its description and
/// the number of its skills: first `all`, where `builtin` asks for it, then
/// the declared profiles in their order.
pub fn list_profiles(root: &Vec<Entry>, declared: &Vec<Profile>, builtin: bool) -> (r: Vec<
    (String, String, usize),
>)
    ensures
        r@.len() == declared@.len() + builtin_count(builtin),
        builtin ==> r@[0].0@ == all_text() && r@[0].1@ == all_description() && r@[0].2
            == every_skill(root@).len(),
        forall|i: int|
            0 <= i < declared@.len() ==> {
                let e = #[trigger] r@[i + builtin_count(builtin)];
                e.0@ == declared@[i].name@ && e.1@ == declared@[i].description@ && e.2
                    == declared@[i].skills@.len()
            },
{
    let mut out: Vec<(String, String, usize)> = Vec::new();
    if builtin {
        proof {
            reveal_strlit("all");
            reveal_strlit("every skill");
            assert("all"@ =~= all_text());
            assert("every skill"@ =~= all_description());
        }
        let every: Vec<(String, String)> = all_skills(root);
        assert(pair_texts(every@).len() == every@.len());
        out.push((owned("all"), owned("every skill"), every.len()));
    }
    let ghost off: int = builtin_count(builtin);
    let n: usize = declared.len();
    let mut i: usize = 0;
    while i < n
        invariant
            n == declared@.len(),
            i <= n,
            off == builtin_count(builtin),
            out@.len() == i + off,
            builtin ==> out@[0].0@ == all_text() && out@[0].1@ == all_description() && out@[0].2
                == every_skill(root@).len(),
            forall|j: int|
                0 <= j < i ==> {
                    let e = #[trigger] out@[j + off];
                    e.0@ == declared@[j].name@ && e.1@ == declared@[j].description@ && e.2
                        == declared@[j].skills@.len()
                },
        decreases n - i,
    {
        out.push(
            (declared[i].name.clone(), declared[i].description.clone(), declared[i].skills.len()),
        );
        i += 1;
    }
    out
}

} // verus!
