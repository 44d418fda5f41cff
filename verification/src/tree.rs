//! Snapshots of directory trees.

use vstd::prelude::*;
use vstd::string::*;
use crate::text::{first_is, same_text};

verus! {

/// What a directory entry is.
#[derive(Debug, PartialEq, Eq)]
pub enum Node {
    /// A regular file with its text.
    File { content: String },
    /// A symbolic link with the path it points to. Links are not followed.
    Link { target: String },
    /// A directory with its entries, in the order in which they are listed.
    Dir { entries: Vec<Entry> },
}

/// A named entry of a directory.
#[derive(Debug, PartialEq, Eq)]
pub struct Entry {
    pub name: String,
    pub node: Node,
}

/// A directory tree as a mathematical value.
pub ghost enum Tree {
    File(Seq<char>),
    Link(Seq<char>),
    Dir(Seq<(Seq<char>, Tree)>),
}

/// The tree that a sequence of entries stands for.
pub open spec fn view_entries(es: Seq<Entry>) -> Seq<(Seq<char>, Tree)>
    decreases es, 0int,
{
    if es.len() == 0 {
        Seq::empty()
    } else {
        view_entries(es.drop_last()).push((es.last().name@, view_node(es.last().node)))
    }
}

/// The tree that a node stands for.
pub open spec fn view_node(n: Node) -> Tree
    decreases n, 1int,
{
    match n {
        Node::File { content } => Tree::File(content@),
        Node::Link { target } => Tree::Link(target@),
        Node::Dir { entries } => Tree::Dir(view_entries(entries@)),
    }
}

/// The views of the strings of a sequence.
pub open spec fn texts(v: Seq<String>) -> Seq<Seq<char>> {
    v.map_values(|s: String| s@)
}

/// The views of the pairs of a sequence.
pub open spec fn pair_texts(v: Seq<(String, String)>) -> Seq<(Seq<char>, Seq<char>)> {
    v.map_values(|p: (String, String)| (p.0@, p.1@))
}

/// The name of the file that marks a directory as a skill: `SKILL.md`.
pub open spec fn marker_name() -> Seq<char> {
    seq!['S', 'K', 'I', 'L', 'L', '.', 'm', 'd']
}

/// The name of the file that records where a skill was fetched from:
/// `.remote-source`.
pub open spec fn meta_name() -> Seq<char> {
    seq!['.', 'r', 'e', 'm', 'o', 't', 'e', '-', 's', 'o', 'u', 'r', 'c', 'e']
}

/// A hidden name begins with a dot.
pub open spec fn is_hidden(name: Seq<char>) -> bool {
    name.len() > 0 && name[0] == '.'
}

/// Some entry of `es` is called `name`.
pub open spec fn has_name(es: Seq<Entry>, name: Seq<char>) -> bool {
    exists|i: int| 0 <= i < es.len() && (#[trigger] es[i]).name@ == name
}

/// `i` is the first entry of `es` called `name`.
pub open spec fn named_at(es: Seq<Entry>, name: Seq<char>, i: int) -> bool {
    &&& 0 <= i < es.len()
    &&& es[i].name@ == name
    &&& forall|j: int| 0 <= j < i ==> (#[trigger] es[j]).name@ != name
}

/// The position of the first entry of `es` called `name`.
pub open spec fn lookup(es: Seq<Entry>, name: Seq<char>) -> Option<int> {
    if has_name(es, name) {
        Some(choose|i: int| named_at(es, name, i))
    } else {
        None
    }
}

/// The entries of a directory; none for a file or a link.
pub open spec fn children(n: Node) -> Seq<Entry> {
    match n {
        Node::Dir { entries } => entries@,
        _ => Seq::empty(),
    }
}

/// A directory that holds the marker file.
pub open spec fn is_skill(n: Node) -> bool {
    n is Dir && has_name(children(n), marker_name())
}

/// A directory that does not hold the marker file.
pub open spec fn is_group(n: Node) -> bool {
    n is Dir && !has_name(children(n), marker_name())
}

/// A directory that holds the record of a remote origin.
pub open spec fn is_remote(n: Node) -> bool {
    n is Dir && has_name(children(n), meta_name())
}

/// The first position of a name is its position.
pub proof fn lemma_lookup(es: Seq<Entry>, name: Seq<char>, i: int)
    requires
        named_at(es, name, i),
    ensures
        lookup(es, name) == Some(i),
{
    assert(has_name(es, name));
    let j = choose|j: int| named_at(es, name, j);
    assert(named_at(es, name, j));
    if j < i {
        assert(es[j].name@ != name);
    }
    if i < j {
        assert(es[i].name@ != name);
    }
}

/// A listing that holds a name holds it at a first position, which is what
/// `lookup` gives.
pub proof fn lemma_first_named(es: Seq<Entry>, name: Seq<char>, k: int)
    requires
        0 <= k < es.len(),
        es[k].name@ == name,
    ensures
        lookup(es, name) is Some,
        named_at(es, name, lookup(es, name).unwrap()),
    decreases k,
{
    if exists|j: int| 0 <= j < k && (#[trigger] es[j]).name@ == name {
        let j = choose|j: int| 0 <= j < k && (#[trigger] es[j]).name@ == name;
        lemma_first_named(es, name, j);
    } else {
        assert(named_at(es, name, k));
        lemma_lookup(es, name, k);
    }
}

/// The entries of a tree's view are the views of the entries, one for one.
pub proof fn lemma_view_entries(es: Seq<Entry>)
    ensures
        view_entries(es).len() == es.len(),
        forall|i: int|
            0 <= i < es.len() ==> (#[trigger] view_entries(es)[i]) == (
                es[i].name@,
                view_node(es[i].node),
            ),
    decreases es.len(),
{
    if es.len() > 0 {
        lemma_view_entries(es.drop_last());
        assert forall|i: int| 0 <= i < es.len() implies (#[trigger] view_entries(es)[i]) == (
            es[i].name@,
            view_node(es[i].node),
        ) by {
            if i < es.len() - 1 {
                assert(es.drop_last()[i] == es[i]);
            }
        }
    }
}

/// A directory is a group exactly when it is not a skill, and nothing is both.
pub proof fn law_group_or_skill(n: Node)
    ensures
        n is Dir ==> is_group(n) == !is_skill(n),
        !(is_group(n) && is_skill(n)),
        !(n is Dir) ==> !is_group(n) && !is_skill(n),
{
}

/// Whether a name is hidden.
pub fn name_is_hidden(name: &str) -> (r: bool)
    ensures
        r == is_hidden(name@),
{
    first_is(name, '.')
}

/// The position of the first entry called `name`, if there is one.
pub fn find_entry(es: &Vec<Entry>, name: &str) -> (r: Option<usize>)
    ensures
        match r {
            Some(i) => named_at(es@, name@, i as int),
            None => !has_name(es@, name@),
        },
        r is Some == lookup(es@, name@) is Some,
        r is Some ==> lookup(es@, name@) == Some(r.unwrap() as int),
{
    let n: usize = es.len();
    let mut i: usize = 0;
    while i < n
        invariant
            n == es@.len(),
            i <= n,
            forall|j: int| 0 <= j < i ==> (#[trigger] es@[j]).name@ != name@,
        decreases n - i,
    {
        if same_text(es[i].name.as_str(), name) {
            proof {
                lemma_lookup(es@, name@, i as int);
            }
            return Some(i);
        }
        i += 1;
    }
    None
}

/// Whether a directory listing holds the marker file.
pub fn holds_marker(es: &Vec<Entry>) -> (r: bool)
    ensures
        r == has_name(es@, marker_name()),
{
    proof {
        reveal_strlit("SKILL.md");
        assert("SKILL.md"@ =~= marker_name());
    }
    find_entry(es, "SKILL.md").is_some()
}

/// Whether a node is a skill: a directory with the marker file.
pub fn node_is_skill(n: &Node) -> (r: bool)
    ensures
        r == is_skill(*n),
{
    match n {
        Node::Dir { entries } => holds_marker(entries),
        _ => false,
    }
}

/// Whether a node is a group: a directory without the marker file.
pub fn node_is_group(n: &Node) -> (r: bool)
    ensures
        r == is_group(*n),
{
    match n {
        Node::Dir { entries } => !holds_marker(entries),
        _ => false,
    }
}

/// Whether a node records a remote origin.
pub fn node_is_remote(n: &Node) -> (r: bool)
    ensures
        r == is_remote(*n),
{
    proof {
        reveal_strlit(".remote-source");
        assert(".remote-source"@ =~= meta_name());
    }
    match n {
        Node::Dir { entries } => find_entry(entries, ".remote-source").is_some(),
        _ => false,
    }
}

/// Whether a list of strings holds a text.
pub fn holds_text(v: &Vec<String>, s: &str) -> (r: bool)
    ensures
        r == texts(v@).contains(s@),
{
    let n: usize = v.len();
    let mut i: usize = 0;
    while i < n
        invariant
            n == v@.len(),
            i <= n,
            forall|j: int| 0 <= j < i ==> (#[trigger] v@[j])@ != s@,
        decreases n - i,
    {
        if same_text(v[i].as_str(), s) {
            assert(texts(v@)[i as int] == s@);
            return true;
        }
        i += 1;
    }
    assert(!texts(v@).contains(s@)) by {
        if texts(v@).contains(s@) {
            let k = choose|k: int| 0 <= k < texts(v@).len() && texts(v@)[k] == s@;
            assert(v@[k]@ == s@);
        }
    }
    false
}

/// The listing of a directory as a mathematical value: names and trees.
pub type Listing = Seq<(Seq<char>, Tree)>;

/// Some entry of the listing is called `name`.
pub open spec fn t_has(t: Listing, name: Seq<char>) -> bool {
    exists|i: int| 0 <= i < t.len() && (#[trigger] t[i]).0 == name
}

/// `i` is the first entry of the listing called `name`.
pub open spec fn t_first(t: Listing, name: Seq<char>, i: int) -> bool {
    &&& 0 <= i < t.len()
    &&& t[i].0 == name
    &&& forall|j: int| 0 <= j < i ==> (#[trigger] t[j]).0 != name
}

/// The position of the first entry of the listing called `name`.
pub open spec fn t_pos(t: Listing, name: Seq<char>) -> Option<int> {
    if t_has(t, name) {
        Some(choose|i: int| t_first(t, name, i))
    } else {
        None
    }
}

/// The listing of a directory tree; empty for a file or a link.
pub open spec fn t_kids(x: Tree) -> Listing {
    match x {
        Tree::Dir(l) => l,
        _ => Seq::empty(),
    }
}

/// The listing without its first entry called `name`.
pub open spec fn t_without(t: Listing, name: Seq<char>) -> Listing {
    match t_pos(t, name) {
        Some(k) => t.remove(k),
        None => t,
    }
}

/// The listing with `x` as the last entry of the directory `g`, under the
/// name `name`. What the directory held under that name before is gone; a
/// directory `g` that was missing is added at the end.
pub open spec fn t_put(t: Listing, g: Seq<char>, name: Seq<char>, x: Tree) -> Listing {
    match t_pos(t, g) {
        Some(i) => t.update(i, (g, Tree::Dir(t_without(t_kids(t[i].1), name).push((name, x))))),
        None => t.push((g, Tree::Dir(seq![(name, x)]))),
    }
}

/// The first position of a name in a listing is its position.
pub proof fn lemma_t_pos(t: Listing, name: Seq<char>, i: int)
    requires
        t_first(t, name, i),
    ensures
        t_pos(t, name) == Some(i),
{
    assert(t_has(t, name));
    let j = choose|j: int| t_first(t, name, j);
    assert(t_first(t, name, j));
    if j < i {
        assert(t[j].0 != name);
    }
    if i < j {
        assert(t[i].0 != name);
    }
}

/// A name is found in the view of a listing where it is found in the listing.
pub proof fn lemma_view_pos(es: Seq<Entry>, name: Seq<char>, i: int)
    requires
        named_at(es, name, i),
    ensures
        t_pos(view_entries(es), name) == Some(i),
        lookup(es, name) == Some(i),
        view_entries(es)[i] == (name, view_node(es[i].node)),
{
    lemma_view_entries(es);
    lemma_lookup(es, name, i);
    let t = view_entries(es);
    assert(t_first(t, name, i)) by {
        assert(t[i].0 == name);
        assert forall|j: int| 0 <= j < i implies (#[trigger] t[j]).0 != name by {
            assert(es[j].name@ != name);
        }
    }
    lemma_t_pos(t, name, i);
}

/// A name that a listing lacks is not found in its view.
pub proof fn lemma_view_absent(es: Seq<Entry>, name: Seq<char>)
    requires
        !has_name(es, name),
    ensures
        t_pos(view_entries(es), name) is None,
        !t_has(view_entries(es), name),
{
    lemma_view_entries(es);
    let t = view_entries(es);
    assert forall|j: int| 0 <= j < t.len() implies (#[trigger] t[j]).0 != name by {
        assert(es[j].name@ != name);
    }
}

/// The view of a listing with one more entry.
pub proof fn lemma_view_push(es: Seq<Entry>, e: Entry)
    ensures
        view_entries(es.push(e)) == view_entries(es).push((e.name@, view_node(e.node))),
{
    assert(es.push(e).drop_last() =~= es);
}

/// The view of a listing with one entry less.
pub proof fn lemma_view_remove(es: Seq<Entry>, k: int)
    requires
        0 <= k < es.len(),
    ensures
        view_entries(es.remove(k)) == view_entries(es).remove(k),
{
    lemma_view_entries(es);
    lemma_view_entries(es.remove(k));
    assert(view_entries(es.remove(k)) =~= view_entries(es).remove(k));
}

/// The view of a listing with one entry replaced.
pub proof fn lemma_view_update(es: Seq<Entry>, k: int, e: Entry)
    requires
        0 <= k < es.len(),
    ensures
        view_entries(es.update(k, e)) == view_entries(es).update(
            k,
            (e.name@, view_node(e.node)),
        ),
{
    lemma_view_entries(es);
    lemma_view_entries(es.update(k, e));
    assert(view_entries(es.update(k, e)) =~= view_entries(es).update(
        k,
        (e.name@, view_node(e.node)),
    ));
}

/// A listing that holds a name holds it at a first position.
pub proof fn lemma_t_first_exists(t: Listing, name: Seq<char>, k: int)
    requires
        0 <= k < t.len(),
        t[k].0 == name,
    ensures
        exists|i: int| t_first(t, name, i),
    decreases k,
{
    if exists|j: int| 0 <= j < k && (#[trigger] t[j]).0 == name {
        let j = choose|j: int| 0 <= j < k && (#[trigger] t[j]).0 == name;
        lemma_t_first_exists(t, name, j);
    } else {
        assert(t_first(t, name, k));
    }
}

/// What `t_pos` gives is a first position.
pub proof fn lemma_t_pos_is_first(t: Listing, name: Seq<char>)
    ensures
        match t_pos(t, name) {
            Some(i) => t_first(t, name, i),
            None => !t_has(t, name),
        },
{
    if t_has(t, name) {
        let k = choose|k: int| 0 <= k < t.len() && (#[trigger] t[k]).0 == name;
        lemma_t_first_exists(t, name, k);
    }
}

} // verus!
