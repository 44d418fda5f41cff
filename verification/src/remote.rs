//! Remote addresses of the form `owner/repo[/path][@ref]`.

use vstd::prelude::*;
use vstd::string::*;
use crate::error::SkillError;
use crate::text::{char_len, find_from, find_last, has_char, is_first_at, is_last_at, slice_of};

verus! {

/// The address of a skill, or of a whole repository, on a remote host.
///
/// An empty `path` addresses the repository itself.
#[derive(Debug, Clone, PartialEq, Eq)]
pub struct RemoteSpec {
    pub owner: String,
    pub repo: String,
    pub path: String,
    pub git_ref: String,
}

/// A remote address as four character sequences.
pub ghost struct SpecText {
    pub owner: Seq<char>,
    pub repo: Seq<char>,
    pub path: Seq<char>,
    pub git_ref: Seq<char>,
}

impl View for RemoteSpec {
    type V = SpecText;

    open spec fn view(&self) -> SpecText {
        SpecText { owner: self.owner@, repo: self.repo@, path: self.path@, git_ref: self.git_ref@ }
    }
}

/// The ref of an address that names none: `main`.
pub open spec fn default_ref() -> Seq<char> {
    seq!['m', 'a', 'i', 'n']
}

/// The position of the first `c` in `s`, if `s` holds one.
pub open spec fn first_pos(s: Seq<char>, c: char) -> Option<int> {
    if has_char(s, c) {
        Some(choose|i: int| is_first_at(s, c, 0, i))
    } else {
        None
    }
}

/// The position of the last `c` in `s`, if `s` holds one.
pub open spec fn last_pos(s: Seq<char>, c: char) -> Option<int> {
    if has_char(s, c) {
        Some(choose|i: int| is_last_at(s, c, i))
    } else {
        None
    }
}

/// A segment of `/`-separated `p` starts at `i` and is exactly `..`.
pub open spec fn dotdot_segment_at(p: Seq<char>, i: int) -> bool {
    &&& 0 <= i && i + 1 < p.len()
    &&& p[i] == '.' && p[i + 1] == '.'
    &&& (i == 0 || p[i - 1] == '/')
    &&& (i + 2 == p.len() || p[i + 2] == '/')
}

/// Some `/`-separated segment of `p` is exactly `..`.
pub open spec fn has_dotdot_segment(p: Seq<char>) -> bool {
    exists|i: int| #[trigger] dotdot_segment_at(p, i)
}

/// What a text says as a remote address, or `None` where it is none.
///
/// The ref is what follows the last `@`; a text without `@`, or with nothing
/// behind it, gets the default ref. Before the ref, the owner runs up to the
/// first `/`, the repository up to the next, and the path is whatever follows.
pub open spec fn spec_parse(t: Seq<char>) -> Option<SpecText> {
    let head = match last_pos(t, '@') {
        Some(a) => t.subrange(0, a),
        None => t,
    };
    let named = match last_pos(t, '@') {
        Some(a) => t.subrange(a + 1, t.len() as int),
        None => Seq::<char>::empty(),
    };
    let git_ref = if named.len() == 0 { default_ref() } else { named };
    match first_pos(head, '/') {
        None => None,
        Some(p) => {
            let owner = head.subrange(0, p);
            let rest = head.subrange(p + 1, head.len() as int);
            let repo = match first_pos(rest, '/') {
                Some(q) => rest.subrange(0, q),
                None => rest,
            };
            let path = match first_pos(rest, '/') {
                Some(q) => rest.subrange(q + 1, rest.len() as int),
                None => Seq::<char>::empty(),
            };
            if owner.len() == 0 || repo.len() == 0 || has_dotdot_segment(path) {
                None
            } else {
                Some(SpecText { owner, repo, path, git_ref })
            }
        },
    }
}

/// The canonical text of an address: `owner/repo`, then `/path` where the
/// path is not empty, then `@ref`.
pub open spec fn spec_format(v: SpecText) -> Seq<char> {
    v.owner + seq!['/'] + v.repo + (if v.path.len() == 0 {
        Seq::<char>::empty()
    } else {
        seq!['/'] + v.path
    }) + seq!['@'] + v.git_ref
}

/// What holds of every address that the parser gives.
pub open spec fn well_formed(v: SpecText) -> bool {
    &&& v.owner.len() > 0 && !has_char(v.owner, '/')
    &&& v.repo.len() > 0 && !has_char(v.repo, '/')
    &&& !has_dotdot_segment(v.path)
    &&& v.git_ref.len() > 0 && !has_char(v.git_ref, '@')
}

/// An address of a whole repository: the parser found no path.
pub open spec fn is_repo_level(v: SpecText) -> bool {
    v.path.len() == 0
}

/// A text that holds `c` holds it at a first position.
pub proof fn lemma_first_exists(s: Seq<char>, c: char, k: int)
    requires
        0 <= k < s.len(),
        s[k] == c,
    ensures
        exists|i: int| is_first_at(s, c, 0, i),
    decreases k,
{
    if exists|j: int| 0 <= j < k && s[j] == c {
        let j = choose|j: int| 0 <= j < k && s[j] == c;
        lemma_first_exists(s, c, j);
    } else {
        assert(is_first_at(s, c, 0, k));
    }
}

/// A text that holds `c` holds it at a last position.
pub proof fn lemma_last_exists(s: Seq<char>, c: char, k: int)
    requires
        0 <= k < s.len(),
        s[k] == c,
    ensures
        exists|i: int| is_last_at(s, c, i),
    decreases s.len() - k,
{
    if exists|j: int| k < j < s.len() && s[j] == c {
        let j = choose|j: int| k < j < s.len() && s[j] == c;
        lemma_last_exists(s, c, j);
    } else {
        assert(is_last_at(s, c, k));
    }
}

/// A first position is the first position.
pub proof fn lemma_first_pos(s: Seq<char>, c: char, i: int)
    requires
        is_first_at(s, c, 0, i),
    ensures
        first_pos(s, c) == Some(i),
{
    assert(has_char(s, c));
    let j = choose|j: int| is_first_at(s, c, 0, j);
    assert(is_first_at(s, c, 0, j));
    if j < i {
        assert(s[j] != c);
    }
    if i < j {
        assert(s[i] != c);
    }
}

/// A last position is the last position.
pub proof fn lemma_last_pos(s: Seq<char>, c: char, i: int)
    requires
        is_last_at(s, c, i),
    ensures
        last_pos(s, c) == Some(i),
{
    assert(has_char(s, c));
    let j = choose|j: int| is_last_at(s, c, j);
    assert(is_last_at(s, c, j));
    if j < i {
        assert(s[i] != c);
    }
    if i < j {
        assert(s[j] != c);
    }
}

/// What `first_pos` gives is a first position.
pub proof fn lemma_first_pos_is_first(s: Seq<char>, c: char)
    ensures
        match first_pos(s, c) {
            Some(i) => is_first_at(s, c, 0, i),
            None => !has_char(s, c),
        },
{
    if has_char(s, c) {
        let k = choose|k: int| 0 <= k < s.len() && s[k] == c;
        lemma_first_exists(s, c, k);
    }
}

/// What `last_pos` gives is a last position.
pub proof fn lemma_last_pos_is_last(s: Seq<char>, c: char)
    ensures
        match last_pos(s, c) {
            Some(i) => is_last_at(s, c, i),
            None => !has_char(s, c),
        },
{
    if has_char(s, c) {
        let k = choose|k: int| 0 <= k < s.len() && s[k] == c;
        lemma_last_exists(s, c, k);
    }
}

/// Whether some `/`-separated segment of `p` is exactly `..`.
pub fn contains_dotdot_segment(p: &str) -> (r: bool)
    ensures
        r == has_dotdot_segment(p@),
{
    let n: usize = char_len(p);
    let mut i: usize = 0;
    while i < n
        invariant
            n == p@.len(),
            i <= n,
            forall|j: int| 0 <= j < i ==> !#[trigger] dotdot_segment_at(p@, j),
        decreases n - i,
    {
        if i + 1 < n && p.get_char(i) == '.' && p.get_char(i + 1) == '.' {
            let before: bool = i == 0 || p.get_char(i - 1) == '/';
            let after: bool = i + 2 == n || p.get_char(i + 2) == '/';
            if before && after {
                assert(dotdot_segment_at(p@, i as int));
                return true;
            }
        }
        i += 1;
    }
    false
}

/// The address that the cuts `e`, `p` and `q` make of `t`: the ref starts
/// behind `e`, the owner ends at `p`, the repository at `q`. `e` is the length
/// of `t` where there is no ref, and `q` is `e` where there is no path.
pub open spec fn assemble(t: Seq<char>, e: int, p: int, q: int) -> Option<SpecText> {
    let owner = t.subrange(0, p);
    let repo = t.subrange(p + 1, q);
    let path = if q < e {
        t.subrange(q + 1, e)
    } else {
        Seq::<char>::empty()
    };
    let named = if e < t.len() {
        t.subrange(e + 1, t.len() as int)
    } else {
        Seq::<char>::empty()
    };
    let git_ref = if named.len() == 0 {
        default_ref()
    } else {
        named
    };
    if owner.len() == 0 || repo.len() == 0 || has_dotdot_segment(path) {
        None
    } else {
        Some(SpecText { owner, repo, path, git_ref })
    }
}

/// The part of `t` before its ref ends at `e`.
pub open spec fn head_ends_at(t: Seq<char>, e: int) -> bool {
    if e < t.len() {
        is_last_at(t, '@', e)
    } else {
        e == t.len() && !has_char(t, '@')
    }
}

/// A text without a `/` before its ref is no address.
pub proof fn lemma_parse_without_slash(t: Seq<char>, e: int)
    requires
        head_ends_at(t, e),
        forall|j: int| 0 <= j < e ==> #[trigger] t[j] != '/',
    ensures
        spec_parse(t) is None,
{
    if e < t.len() {
        lemma_last_pos(t, '@', e);
    }
    let head = t.subrange(0, e);
    assert(head =~= match last_pos(t, '@') {
        Some(a) => t.subrange(0, a),
        None => t,
    });
    assert(!has_char(head, '/')) by {
        assert forall|j: int| 0 <= j < head.len() implies #[trigger] head[j] != '/' by {
            assert(head[j] == t[j]);
        }
    }
}

/// Where the cuts are known, the parser's result is what they assemble.
pub proof fn lemma_parse_by_cuts(t: Seq<char>, e: int, p: int, q: int)
    requires
        head_ends_at(t, e),
        is_first_at(t, '/', 0, p),
        p < q <= e,
        forall|j: int| p < j < q ==> #[trigger] t[j] != '/',
        q < e ==> t[q] == '/',
    ensures
        spec_parse(t) == assemble(t, e, p, q),
{
    if e < t.len() {
        lemma_last_pos(t, '@', e);
    }
    let head = t.subrange(0, e);
    assert(head =~= match last_pos(t, '@') {
        Some(a) => t.subrange(0, a),
        None => t,
    });
    assert(is_first_at(head, '/', 0, p)) by {
        assert forall|j: int| 0 <= j < p implies #[trigger] head[j] != '/' by {
            assert(head[j] == t[j]);
        }
    }
    lemma_first_pos(head, '/', p);
    let rest = head.subrange(p + 1, head.len() as int);
    assert(head.subrange(0, p) =~= t.subrange(0, p));
    if q < e {
        assert(is_first_at(rest, '/', 0, q - p - 1)) by {
            assert(rest[q - p - 1] == t[q]);
            assert forall|j: int| 0 <= j < q - p - 1 implies #[trigger] rest[j] != '/' by {
                assert(rest[j] == t[j + p + 1]);
            }
        }
        lemma_first_pos(rest, '/', q - p - 1);
        assert(rest.subrange(0, q - p - 1) =~= t.subrange(p + 1, q));
        assert(rest.subrange(q - p, rest.len() as int) =~= t.subrange(q + 1, e));
    } else {
        assert(!has_char(rest, '/')) by {
            assert forall|j: int| 0 <= j < rest.len() implies #[trigger] rest[j] != '/' by {
                assert(rest[j] == t[j + p + 1]);
            }
        }
        assert(rest =~= t.subrange(p + 1, q));
    }
}

/// Reads a remote address.
///
/// Succeeds exactly on the texts that `spec_parse` accepts, with the address
/// that it gives; every other text is refused as invalid: one whose owner
/// or repository is missing or empty, or whose path holds a `..` segment.
pub fn parse_spec(text: &str) -> (r: Result<RemoteSpec, SkillError>)
    ensures
        match r {
            Ok(spec) => spec_parse(text@) == Some(spec@),
            Err(e) => e == SkillError::InvalidSpec && spec_parse(text@) is None,
        },
{
    let n: usize = char_len(text);
    let e: usize = match find_last(text, '@') {
        Some(a) => a,
        None => n,
    };
    assert(head_ends_at(text@, e as int));
    let p: usize = match find_from(text, '/', 0) {
        Some(p) => p,
        None => n,
    };
    if p >= e {
        proof {
            lemma_parse_without_slash(text@, e as int);
        }
        return Err(SkillError::InvalidSpec);
    }
    let q: usize = match find_from(text, '/', p + 1) {
        Some(q) => if q < e {
            q
        } else {
            e
        },
        None => e,
    };
    proof {
        lemma_parse_by_cuts(text@, e as int, p as int, q as int);
    }
    let owner: String = slice_of(text, 0, p);
    let repo: String = slice_of(text, p + 1, q);
    let path: String = if q < e {
        slice_of(text, q + 1, e)
    } else {
        String::new()
    };
    if p == 0 || q == p + 1 || contains_dotdot_segment(path.as_str()) {
        return Err(SkillError::InvalidSpec);
    }
    let git_ref: String = if e < n && e + 1 < n {
        slice_of(text, e + 1, n)
    } else {
        default_git_ref()
    };
    Ok(RemoteSpec { owner, repo, path, git_ref })
}

/// The ref of an address that names none.
pub fn default_git_ref() -> (r: String)
    ensures
        r@ == default_ref(),
{
    proof {
        reveal_strlit("main");
    }
    let r = String::from_str("main");
    assert(r@ =~= default_ref());
    r
}

/// Writes an address in its canonical form.
pub fn format_spec(spec: &RemoteSpec) -> (r: String)
    ensures
        r@ == spec_format(spec@),
{
    proof {
        reveal_strlit("/");
        reveal_strlit("@");
        assert("/"@ =~= seq!['/']);
        assert("@"@ =~= seq!['@']);
    }
    let mut out: String = String::from_str(spec.owner.as_str());
    out.append("/");
    out.append(spec.repo.as_str());
    if char_len(spec.path.as_str()) > 0 {
        out.append("/");
        out.append(spec.path.as_str());
    }
    out.append("@");
    out.append(spec.git_ref.as_str());
    assert(out@ =~= spec_format(spec@));
    out
}

/// Whether an address names a whole repository rather than one skill.
pub fn addresses_repository(spec: &RemoteSpec) -> (r: bool)
    ensures
        r == is_repo_level(spec@),
{
    char_len(spec.path.as_str()) == 0
}

/// Every address that the parser gives is well formed.
pub proof fn lemma_parsed_is_well_formed(t: Seq<char>)
    requires
        spec_parse(t) is Some,
    ensures
        well_formed(spec_parse(t).unwrap()),
{
    let v = spec_parse(t).unwrap();
    lemma_last_pos_is_last(t, '@');
    let head = match last_pos(t, '@') {
        Some(a) => t.subrange(0, a),
        None => t,
    };
    lemma_first_pos_is_first(head, '/');
    let p = first_pos(head, '/').unwrap();
    let rest = head.subrange(p + 1, head.len() as int);
    lemma_first_pos_is_first(rest, '/');
    assert(!has_char(v.owner, '/')) by {
        assert forall|j: int| 0 <= j < v.owner.len() implies #[trigger] v.owner[j] != '/' by {
            assert(v.owner[j] == head[j]);
        }
    }
    assert(!has_char(v.repo, '/')) by {
        assert forall|j: int| 0 <= j < v.repo.len() implies #[trigger] v.repo[j] != '/' by {
            assert(v.repo[j] == rest[j]);
        }
    }
    assert(!has_char(v.git_ref, '@')) by {
        match last_pos(t, '@') {
            Some(a) => {
                let named = t.subrange(a + 1, t.len() as int);
                assert forall|j: int| 0 <= j < named.len() implies #[trigger] named[j] != '@' by {
                    assert(named[j] == t[j + a + 1]);
                }
            },
            None => {},
        }
    }
}

/// Reading the canonical text of a well-formed address gives that address back.
pub proof fn lemma_parse_inverts_format(v: SpecText)
    requires
        well_formed(v),
    ensures
        spec_parse(spec_format(v)) == Some(v),
{
    let f = spec_format(v);
    let tail = if v.path.len() == 0 {
        Seq::<char>::empty()
    } else {
        seq!['/'] + v.path
    };
    let a: int = (v.owner.len() + 1 + v.repo.len() + tail.len()) as int;
    assert(is_last_at(f, '@', a)) by {
        assert(f[a] == '@');
        assert forall|j: int| a < j < f.len() implies #[trigger] f[j] != '@' by {
            assert(f[j] == v.git_ref[j - a - 1]);
        }
    }
    lemma_last_pos(f, '@', a);
    let head = f.subrange(0, a);
    assert(head =~= v.owner + seq!['/'] + v.repo + tail);
    assert(f.subrange(a + 1, f.len() as int) =~= v.git_ref);
    let p = v.owner.len() as int;
    assert(is_first_at(head, '/', 0, p)) by {
        assert(head[p] == '/');
        assert forall|j: int| 0 <= j < p implies #[trigger] head[j] != '/' by {
            assert(head[j] == v.owner[j]);
        }
    }
    lemma_first_pos(head, '/', p);
    assert(head.subrange(0, p) =~= v.owner);
    let rest = head.subrange(p + 1, head.len() as int);
    assert(rest =~= v.repo + tail);
    let q = v.repo.len() as int;
    if v.path.len() == 0 {
        assert(rest =~= v.repo);
        assert(v.path =~= Seq::<char>::empty());
    } else {
        assert(is_first_at(rest, '/', 0, q)) by {
            assert(rest[q] == '/');
            assert forall|j: int| 0 <= j < q implies #[trigger] rest[j] != '/' by {
                assert(rest[j] == v.repo[j]);
            }
        }
        lemma_first_pos(rest, '/', q);
        assert(rest.subrange(0, q) =~= v.repo);
        assert(rest.subrange(q + 1, rest.len() as int) =~= v.path);
    }
}

/// Normalising an accepted text is idempotent: the canonical text of what the
/// parser reads from `s` is read back as the same address, and so is written
/// out as the same text again.
pub proof fn law_normalisation_is_idempotent(s: Seq<char>)
    requires
        spec_parse(s) is Some,
    ensures
        spec_parse(spec_format(spec_parse(s).unwrap())) == spec_parse(s),
        spec_format(spec_parse(spec_format(spec_parse(s).unwrap())).unwrap()) == spec_format(
            spec_parse(s).unwrap(),
        ),
{
    lemma_parsed_is_well_formed(s);
    lemma_parse_inverts_format(spec_parse(s).unwrap());
}

/// A text with exactly one `/` and no `@` addresses a whole repository.
pub proof fn law_two_segments_address_repository(s: Seq<char>, p: int)
    requires
        is_first_at(s, '/', 0, p),
        is_last_at(s, '/', p),
        !has_char(s, '@'),
        0 < p,
        p + 1 < s.len(),
    ensures
        spec_parse(s) is Some,
        is_repo_level(spec_parse(s).unwrap()),
        spec_parse(s).unwrap().owner == s.subrange(0, p),
        spec_parse(s).unwrap().repo == s.subrange(p + 1, s.len() as int),
        spec_parse(s).unwrap().git_ref == default_ref(),
{
    lemma_first_pos(s, '/', p);
    let rest = s.subrange(p + 1, s.len() as int);
    assert(!has_char(rest, '/')) by {
        assert forall|j: int| 0 <= j < rest.len() implies #[trigger] rest[j] != '/' by {
            assert(rest[j] == s[j + p + 1]);
        }
    }
    assert(!has_dotdot_segment(Seq::<char>::empty())) by {
        assert forall|i: int| !#[trigger] dotdot_segment_at(Seq::<char>::empty(), i) by {}
    }
}

} // verus!
