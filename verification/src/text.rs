//! Small verified operations on strings, stated over their character sequences.

use vstd::prelude::*;
use vstd::string::*;

verus! {

/// `s` holds two dots next to each other.
pub open spec fn has_dotdot(s: Seq<char>) -> bool {
    exists|i: int| 0 <= i && i + 1 < s.len() && s[i] == '.' && #[trigger] s[i + 1] == '.'
}

/// `s` holds the character `c`.
pub open spec fn has_char(s: Seq<char>, c: char) -> bool {
    exists|i: int| 0 <= i < s.len() && #[trigger] s[i] == c
}

/// `i` is the first position of `c` in `s` at or after `from`.
pub open spec fn is_first_at(s: Seq<char>, c: char, from: int, i: int) -> bool {
    &&& from <= i < s.len()
    &&& s[i] == c
    &&& forall|j: int| from <= j < i ==> #[trigger] s[j] != c
}

/// `i` is the last position of `c` in `s`.
pub open spec fn is_last_at(s: Seq<char>, c: char, i: int) -> bool {
    &&& 0 <= i < s.len()
    &&& s[i] == c
    &&& forall|j: int| i < j < s.len() ==> #[trigger] s[j] != c
}

/// The number of characters of a string.
pub fn char_len(s: &str) -> (n: usize)
    ensures
        n == s@.len(),
{
    s.unicode_len()
}

/// Whether two strings hold the same characters.
pub fn same_text(a: &str, b: &str) -> (r: bool)
    ensures
        r == (a@ == b@),
{
    let n: usize = a.unicode_len();
    if n != b.unicode_len() {
        return false;
    }
    let mut i: usize = 0;
    while i < n
        invariant
            n == a@.len(),
            n == b@.len(),
            i <= n,
            forall|j: int| 0 <= j < i ==> a@[j] == b@[j],
        decreases n - i,
    {
        if a.get_char(i) != b.get_char(i) {
            return false;
        }
        i += 1;
    }
    assert(a@ =~= b@);
    true
}

/// Whether the first character of `s` is `c`.
pub fn first_is(s: &str, c: char) -> (r: bool)
    ensures
        r == (s@.len() > 0 && s@[0] == c),
{
    s.unicode_len() > 0 && s.get_char(0) == c
}

/// Whether `s` holds two dots next to each other.
pub fn contains_dotdot(s: &str) -> (r: bool)
    ensures
        r == has_dotdot(s@),
{
    let n: usize = s.unicode_len();
    let mut i: usize = 1;
    while i < n
        invariant
            n == s@.len(),
            1 <= i,
            forall|j: int| 0 <= j && j + 1 < i && j + 1 < n ==> !(s@[j] == '.' && #[trigger] s@[j + 1] == '.'),
        decreases n - i,
    {
        if s.get_char(i - 1) == '.' && s.get_char(i) == '.' {
            assert(s@[(i - 1) as int] == '.' && s@[(i - 1) + 1] == '.');
            return true;
        }
        i += 1;
    }
    false
}

/// The first position of `c` in `s` at or after `from`, if there is one.
pub fn find_from(s: &str, c: char, from: usize) -> (r: Option<usize>)
    ensures
        match r {
            Some(i) => is_first_at(s@, c, from as int, i as int),
            None => forall|j: int| from <= j < s@.len() ==> #[trigger] s@[j] != c,
        },
{
    let n: usize = s.unicode_len();
    let mut i: usize = from;
    while i < n
        invariant
            n == s@.len(),
            from <= i,
            forall|j: int| from <= j < i && j < n ==> #[trigger] s@[j] != c,
        decreases n - i,
    {
        if s.get_char(i) == c {
            return Some(i);
        }
        i += 1;
    }
    None
}

/// The last position of `c` in `s`, if there is one.
pub fn find_last(s: &str, c: char) -> (r: Option<usize>)
    ensures
        match r {
            Some(i) => is_last_at(s@, c, i as int),
            None => !has_char(s@, c),
        },
{
    let n: usize = s.unicode_len();
    let mut i: usize = n;
    while i > 0
        invariant
            n == s@.len(),
            i <= n,
            forall|j: int| i <= j < n ==> #[trigger] s@[j] != c,
        decreases i,
    {
        i -= 1;
        if s.get_char(i) == c {
            return Some(i);
        }
    }
    None
}

/// The characters of `s` from `from` up to, not including, `to`, as a new string.
pub fn slice_of(s: &str, from: usize, to: usize) -> (r: String)
    requires
        from <= to <= s@.len(),
    ensures
        r@ == s@.subrange(from as int, to as int),
{
    String::from_str(s.substring_char(from, to))
}

/// A new string with the characters of `s`.
pub fn owned(s: &str) -> (r: String)
    ensures
        r@ == s@,
{
    String::from_str(s)
}

/// Whether a character is whitespace, as `char::is_whitespace` says.
pub uninterp spec fn white_space(c: char) -> bool;

/// `char::is_whitespace`: whether a character has the Unicode property
/// White_Space. The result is a function of the character alone.
#[verifier::external_body]
fn is_white_space(c: char) -> (r: bool)
    ensures
        r == white_space(c),
{
    c.is_whitespace()
}

/// How many flags at the front are set.
pub open spec fn leading(flags: Seq<bool>) -> nat
    decreases flags.len(),
{
    if flags.len() > 0 && flags[0] {
        1 + leading(flags.drop_first())
    } else {
        0
    }
}

/// How many flags at the back are set.
pub open spec fn trailing(flags: Seq<bool>) -> nat
    decreases flags.len(),
{
    if flags.len() > 0 && flags.last() {
        1 + trailing(flags.drop_last())
    } else {
        0
    }
}

/// The text without the characters at its front and at its back whose flag
/// is set: what stands from the first character without a flag up to the
/// last one. Empty where every flag is set.
pub open spec fn trimmed_by(s: Seq<char>, flags: Seq<bool>) -> Seq<char> {
    if leading(flags) >= s.len() {
        Seq::empty()
    } else {
        s.subrange(leading(flags) as int, s.len() - trailing(flags))
    }
}

/// For each character of a text, whether it is whitespace.
pub open spec fn white_flags(s: Seq<char>) -> Seq<bool> {
    Seq::new(s.len(), |i: int| white_space(s[i]))
}

/// The text without leading and trailing whitespace.
pub open spec fn trimmed_text(s: Seq<char>) -> Seq<char> {
    trimmed_by(s, white_flags(s))
}

/// Trims a text by flags: the characters at the front and at the back whose
/// flag is set are left out.
pub fn trim_by(s: &str, flags: &Vec<bool>) -> (r: String)
    requires
        flags@.len() == s@.len(),
    ensures
        r@ == trimmed_by(s@, flags@),
{
    let n: usize = flags.len();
    let mut a: usize = 0;
    assert(flags@.subrange(0, n as int) =~= flags@);
    while a < n && flags[a]
        invariant
            n == flags@.len(),
            a <= n,
            leading(flags@) == a + leading(flags@.subrange(a as int, n as int)),
        decreases n - a,
    {
        proof {
            let sub = flags@.subrange(a as int, n as int);
            assert(sub[0] == flags@[a as int]);
            assert(sub.drop_first() =~= flags@.subrange(a + 1, n as int));
        }
        a += 1;
    }
    if a == n {
        return String::new();
    }
    assert(flags@.subrange(a as int, n as int)[0] == flags@[a as int]);
    let mut b: usize = n;
    while b > 0 && flags[b - 1]
        invariant
            n == flags@.len(),
            a < b <= n,
            !flags@[a as int],
            trailing(flags@) == (n - b) + trailing(flags@.subrange(0, b as int)),
        decreases b,
    {
        proof {
            let sub = flags@.subrange(0, b as int);
            assert(sub.last() == flags@[b - 1]);
            assert(sub.drop_last() =~= flags@.subrange(0, b - 1));
        }
        b -= 1;
    }
    assert(flags@.subrange(0, b as int).last() == flags@[b - 1]);
    slice_of(s, a, b)
}

/// The text without leading and trailing whitespace.
pub fn trim_text(s: &str) -> (r: String)
    ensures
        r@ == trimmed_text(s@),
{
    let n: usize = s.unicode_len();
    let mut flags: Vec<bool> = Vec::new();
    let mut i: usize = 0;
    while i < n
        invariant
            n == s@.len(),
            i <= n,
            flags@.len() == i,
            forall|j: int| 0 <= j < i ==> flags@[j] == white_space(s@[j]),
        decreases n - i,
    {
        flags.push(is_white_space(s.get_char(i)));
        i += 1;
    }
    assert(flags@ =~= white_flags(s@));
    trim_by(s, &flags)
}

} // verus!
