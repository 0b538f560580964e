//! Paths for display: the home directory becomes `~`.
//!
//! What comes out is text for a reader, with `/` between components. It is no path to open.

use vstd::prelude::*;

use crate::strings::{chars_of, push_chars, string_of, trim_end_of, trimmed_end};

verus! {

broadcast use vstd::seq::group_seq_axioms;

/// How a file system tells names apart.
#[derive(Debug, Clone, Copy, PartialEq, Eq, Structural)]
pub enum PathCase {
    /// Letters of different case differ.
    Sensitive,
    /// ASCII letters of different case are the same, as on Windows.
    Insensitive,
}

/// `c` with `\` turned into `/`.
pub open spec fn forward(c: char) -> char {
    if c == '\\' {
        '/'
    } else {
        c
    }
}

/// A path with `/` between its components.
pub open spec fn normalized(path: Seq<char>) -> Seq<char> {
    Seq::new(path.len(), |i: int| forward(path[i]))
}

/// `c` in lower case, if it is an ASCII letter.
pub open spec fn ascii_lower(c: char) -> char {
    if 'A' <= c && c <= 'Z' {
        (c as u32 + 32) as char
    } else {
        c
    }
}

/// Whether two characters of a path are the same.
pub open spec fn same_char(a: char, b: char, case: PathCase) -> bool {
    match case {
        PathCase::Sensitive => a == b,
        PathCase::Insensitive => ascii_lower(a) == ascii_lower(b),
    }
}

/// Whether two paths are the same.
pub open spec fn same_path(a: Seq<char>, b: Seq<char>, case: PathCase) -> bool {
    &&& a.len() == b.len()
    &&& forall|i: int| 0 <= i < a.len() ==> same_char(#[trigger] a[i], b[i], case)
}

/// Whether `path` lies below `dir`: a `/` follows the directory's name.
pub open spec fn below(path: Seq<char>, dir: Seq<char>, case: PathCase) -> bool {
    &&& path.len() > dir.len()
    &&& same_path(path.take(dir.len() as int), dir, case)
    &&& path[dir.len() as int] == '/'
}

/// The home directory as it is compared: without the `/` at its end.
pub open spec fn home_prefix(home: Seq<char>) -> Seq<char> {
    trim_end_of(normalized(home), '/')
}

/// `path` for display: `~` in place of a home directory that it is, or lies below. Whether `/` stands
/// at its end makes no difference to which directory it is.
pub open spec fn shortened(path: Seq<char>, home: Option<Seq<char>>, case: PathCase) -> Seq<char> {
    let p = normalized(path);
    match home {
        None => p,
        Some(h) => {
            let dir = home_prefix(h);
            if dir.len() == 0 {
                p
            } else if same_path(trim_end_of(p, '/'), dir, case) {
                seq!['~']
            } else if below(p, dir, case) {
                seq!['~'] + p.skip(dir.len() as int)
            } else {
                p
            }
        },
    }
}

/// `c` in lower case, if it is an ASCII letter.
pub fn lower_of(c: char) -> (r: char)
    ensures
        r == ascii_lower(c),
{
    if 'A' <= c && c <= 'Z' {
        (c as u8 + 32) as char
    } else {
        c
    }
}

/// Whether the path `a` starts with all of `b`.
fn starts_with_path(a: &[char], b: &[char], case: PathCase) -> (r: bool)
    ensures
        r == (a@.len() >= b@.len() && same_path(a@.take(b@.len() as int), b@, case)),
{
    if a.len() < b.len() {
        return false;
    }
    let mut i: usize = 0;
    while i < b.len()
        invariant
            i <= b@.len() <= a@.len(),
            forall|j: int| 0 <= j < i ==> same_char(#[trigger] a@[j], b@[j], case),
        decreases b@.len() - i,
    {
        let same = match case {
            PathCase::Sensitive => a[i] == b[i],
            PathCase::Insensitive => lower_of(a[i]) == lower_of(b[i]),
        };
        if !same {
            assert(!same_char(a@.take(b@.len() as int)[i as int], b@[i as int], case));
            return false;
        }
        i += 1;
    }
    true
}

/// The characters of a path with `/` between its components.
fn normalize_separators(path: &str) -> (r: Vec<char>)
    ensures
        r@ == normalized(path@),
{
    let mut v = chars_of(path);
    let mut i: usize = 0;
    while i < v.len()
        invariant
            v@.len() == path@.len(),
            i <= v@.len(),
            forall|j: int| 0 <= j < i ==> v@[j] == forward(path@[j]),
            forall|j: int| i <= j < v@.len() ==> v@[j] == path@[j],
        decreases v@.len() - i,
    {
        if v[i] == '\\' {
            v.set(i, '/');
        }
        i += 1;
    }
    assert(v@ =~= normalized(path@));
    v
}

/// `path` for display, with `~` in place of the home directory that it is or lies below. A
/// directory whose name only starts like the home directory's is left alone.
#[must_use]
pub fn shorten_path(path: &str, home: Option<&str>, case: PathCase) -> (r: String)
    ensures
        r@ == shortened(
            path@,
            match home {
                Some(h) => Some(h@),
                None => None,
            },
            case,
        ),
{
    let p = normalize_separators(path);
    if let Some(h) = home {
        let dir = normalize_separators(h);
        let n = trimmed_end(dir.as_slice(), '/');
        let prefix = vstd::slice::slice_subrange(dir.as_slice(), 0, n);
        assert(prefix@ =~= home_prefix(h@));
        let m = trimmed_end(p.as_slice(), '/');
        if n > 0 && starts_with_path(p.as_slice(), prefix, case) {
            if m == n {
                let mut out = String::new();
                out.push('~');
                assert(out@ =~= seq!['~']);
                return out;
            }
            if p.len() > n && p[n] == '/' {
                let mut out = String::new();
                out.push('~');
                push_chars(&mut out, vstd::slice::slice_subrange(p.as_slice(), n, p.len()));
                assert(out@ =~= seq!['~'] + p@.skip(n as int));
                return out;
            }
        }
    }
    string_of(p.as_slice())
}

/// A separator at the end of the home directory makes no difference.
pub proof fn lemma_trailing_separator(path: Seq<char>, home: Seq<char>, case: PathCase)
    ensures
        shortened(path, Some(home.push('/')), case) == shortened(path, Some(home), case),
        shortened(path, Some(home.push('\\')), case) == shortened(path, Some(home), case),
{
    assert(normalized(home.push('/')) =~= normalized(home).push('/'));
    assert(normalized(home.push('\\')) =~= normalized(home).push('/'));
    assert(normalized(home).push('/').drop_last() =~= normalized(home));
}

/// The home directory itself is shown as `~` alone, however it is written.
pub proof fn lemma_home_is_a_tilde(home: Seq<char>, case: PathCase)
    requires
        home_prefix(home).len() > 0,
    ensures
        shortened(home, Some(home), case) == seq!['~'],
{
}

/// Which separators a path is written with makes no difference.
pub proof fn lemma_separators(path: Seq<char>, home: Option<Seq<char>>, case: PathCase)
    ensures
        shortened(normalized(path), home, case) == shortened(path, home, case),
{
    assert(normalized(normalized(path)) =~= normalized(path));
}

proof fn lemma_no_separator_left(s: Seq<char>)
    ensures
        trim_end_of(s, '/').len() > 0 ==> trim_end_of(s, '/').last() != '/',
    decreases s.len(),
{
    if s.len() > 0 && s.last() == '/' {
        lemma_no_separator_left(s.drop_last());
    }
}

/// What is shown is neither the home directory nor anything below it by its full name.
pub proof fn lemma_home_is_hidden(path: Seq<char>, home: Seq<char>, case: PathCase)
    requires
        home_prefix(home).len() > 0,
        home_prefix(home)[0] != '~',
    ensures
        !same_path(shortened(path, Some(home), case), home_prefix(home), case),
        !below(shortened(path, Some(home), case), home_prefix(home), case),
{
    let p = normalized(path);
    let dir = home_prefix(home);
    let r = shortened(path, Some(home), case);
    lemma_no_separator_left(normalized(home));
    if same_path(p, dir, case) {
        assert(same_char(p[p.len() - 1], dir[dir.len() - 1], case));
        assert(p.last() != '/');
        assert(trim_end_of(p, '/') == p);
    }
    if same_path(trim_end_of(p, '/'), dir, case) || below(p, dir, case) {
        assert(r[0] == '~');
        assert(!same_char('~', dir[0], case));
        if same_path(r, dir, case) {
            assert(same_char(r[0], dir[0], case));
        }
        if below(r, dir, case) {
            assert(r.take(dir.len() as int)[0] == r[0]);
            assert(same_char(r.take(dir.len() as int)[0], dir[0], case));
        }
    }
}

} // verus!
