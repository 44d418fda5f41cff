//! Paths as texts: their `/`-separated segments.

use vstd::prelude::*;
use vstd::string::*;
use crate::remote::{first_pos, lemma_first_pos};
use crate::text::{char_len, find_from, has_char, is_first_at, slice_of};
use crate::tree::texts;

verus! {

/// The segments of a `/`-separated path, without the empty ones.
pub open spec fn segments(p: Seq<char>) -> Seq<Seq<char>>
    decreases p.len(),
{
    match first_pos(p, '/') {
        None => if p.len() == 0 {
            Seq::empty()
        } else {
            seq![p]
        },
        Some(c) => if 0 <= c < p.len() {
            let rest = segments(p.subrange(c + 1, p.len() as int));
            if c == 0 {
                rest
            } else {
                seq![p.subrange(0, c)] + rest
            }
        } else {
            Seq::empty()
        },
    }
}

/// The name of the directory that holds what a path leads to: its
/// second-last segment. `None` where the path has fewer than two segments.
pub open spec fn parent_name(t: Seq<char>) -> Option<Seq<char>> {
    if segments(t).len() >= 2 {
        Some(segments(t)[segments(t).len() - 2])
    } else {
        None
    }
}

/// The name of what a path leads to: its last segment. `None` where the
/// path has no segment.
pub open spec fn last_name(t: Seq<char>) -> Option<Seq<char>> {
    if segments(t).len() >= 1 {
        Some(segments(t).last())
    } else {
        None
    }
}

/// Splits a path at `/`, leaving out empty segments.
pub fn split_path(p: &str) -> (r: Vec<String>)
    ensures
        texts(r@) == segments(p@),
{
    let n: usize = char_len(p);
    let mut out: Vec<String> = Vec::new();
    let mut pos: usize = 0;
    let mut done: bool = false;
    assert(p@.subrange(0, n as int) =~= p@);
    assert(texts(out@) + segments(p@.subrange(0, n as int)) =~= segments(p@));
    while !done
        invariant
            n == p@.len(),
            pos <= n,
            !done ==> texts(out@) + segments(p@.subrange(pos as int, n as int)) == segments(p@),
            done ==> texts(out@) == segments(p@),
        decreases n - pos + (if done { 0int } else { 1int }),
    {
        let ghost rest = p@.subrange(pos as int, n as int);
        let ghost before = out@;
        match find_from(p, '/', pos) {
            None => {
                proof {
                    assert forall|j: int| 0 <= j < rest.len() implies #[trigger] rest[j] != '/' by {
                        assert(rest[j] == p@[j + pos]);
                    }
                    assert(!has_char(rest, '/'));
                }
                if pos < n {
                    out.push(slice_of(p, pos, n));
                    assert(texts(out@) =~= texts(before).push(rest));
                    assert(texts(out@) =~= texts(before) + seq![rest]);
                } else {
                    assert(texts(before) + Seq::<Seq<char>>::empty() =~= texts(before));
                }
                done = true;
            },
            Some(q) => {
                proof {
                    assert(is_first_at(rest, '/', 0, q - pos)) by {
                        assert(rest[q - pos] == p@[q as int]);
                        assert forall|j: int| 0 <= j < q - pos implies #[trigger] rest[j] != '/' by {
                            assert(rest[j] == p@[j + pos]);
                        }
                    }
                    lemma_first_pos(rest, '/', q - pos);
                    assert(rest.subrange(q - pos + 1, rest.len() as int) =~= p@.subrange(
                        q + 1,
                        n as int,
                    ));
                    assert(rest.subrange(0, q - pos) =~= p@.subrange(pos as int, q as int));
                }
                if q > pos {
                    out.push(slice_of(p, pos, q));
                    assert(texts(out@) =~= texts(before).push(rest.subrange(0, q - pos)));
                    assert(texts(out@) + segments(p@.subrange(q + 1, n as int)) =~= texts(before) + (
                    seq![rest.subrange(0, q - pos)] + segments(p@.subrange(q + 1, n as int))));
                }
                pos = q + 1;
            },
        }
    }
    out
}

/// The name of the directory that holds what a path leads to.
pub fn parent_dir_name(t: &str) -> (r: Option<String>)
    ensures
        match r {
            Some(g) => parent_name(t@) == Some(g@),
            None => parent_name(t@) is None,
        },
{
    let mut parts: Vec<String> = split_path(t);
    let n: usize = parts.len();
    assert(texts(parts@).len() == n);
    if n >= 2 {
        assert(texts(parts@)[n - 2] == parts@[n - 2]@);
        Some(parts.swap_remove(n - 2))
    } else {
        None
    }
}

/// The name of what a path leads to.
pub fn last_name_of(t: &str) -> (r: Option<String>)
    ensures
        match r {
            Some(g) => last_name(t@) == Some(g@),
            None => last_name(t@) is None,
        },
{
    let mut parts: Vec<String> = split_path(t);
    let n: usize = parts.len();
    assert(texts(parts@).len() == n);
    if n >= 1 {
        assert(texts(parts@)[n - 1] == parts@[n - 1]@);
        parts.pop()
    } else {
        None
    }
}

} // verus!
