//! Arithmetic on `/`-separated paths, stated over their characters.
//!
//! Paths that the filesystem hands back after canonicalization are in normal
//! form: absolute, with no empty, `.` or `..` segment and no trailing `/`.
//! On such paths the character-level statements below agree with a
//! segment-by-segment reading.
use vstd::prelude::*;
use vstd::string::*;

verus! {

/// Index of the last occurrence of `c` in `s`, or -1 when there is none.
pub open spec fn last_index_of(s: Seq<char>, c: char) -> int
    decreases s.len(),
{
    if s.len() == 0 {
        -1
    } else if s.last() == c {
        s.len() - 1
    } else {
        last_index_of(s.drop_last(), c)
    }
}

pub proof fn lemma_last_index_of_bounds(s: Seq<char>, c: char)
    ensures
        -1 <= last_index_of(s, c) < s.len(),
        last_index_of(s, c) >= 0 ==> s[last_index_of(s, c)] == c,
        forall|i: int| last_index_of(s, c) < i < s.len() ==> s[i] != c,
    decreases s.len(),
{
    if s.len() > 0 && s.last() != c {
        lemma_last_index_of_bounds(s.drop_last(), c);
        assert forall|i: int| last_index_of(s, c) < i < s.len() implies s[i] != c by {
            if i < s.len() - 1 {
                assert(s.drop_last()[i] == s[i]);
            }
        }
    }
}

/// The last segment of a path: what follows its last `/`.
pub open spec fn file_name(p: Seq<char>) -> Seq<char> {
    p.subrange(last_index_of(p, '/') + 1, p.len() as int)
}

/// A path names an entry when its last segment is neither empty nor `.` nor `..`.
pub open spec fn has_file_name(p: Seq<char>) -> bool {
    let n = file_name(p);
    n.len() > 0 && n != seq!['.'] && n != seq!['.', '.']
}

/// The stem of a file name: all before its last `.`, unless that dot is
/// missing or leads the name, in which case the whole name.
pub open spec fn stem(name: Seq<char>) -> Seq<char> {
    let d = last_index_of(name, '.');
    if d <= 0 {
        name
    } else {
        name.subrange(0, d)
    }
}

/// The extension of a file name: what follows a last `.` that does not lead the name.
pub open spec fn extension(name: Seq<char>) -> Option<Seq<char>> {
    let d = last_index_of(name, '.');
    if d <= 0 {
        None
    } else {
        Some(name.subrange(d + 1, name.len() as int))
    }
}

/// `c` is `root` or lies below it, segment by segment: `root` followed by `/`
/// is a prefix of `c`. A sibling such as `root` + `X` is not within.
pub open spec fn within(c: Seq<char>, root: Seq<char>) -> bool {
    c == root || (root.len() < c.len() && c.subrange(0, root.len() as int) == root
        && c[root.len() as int] == '/')
}

/// `c` relative to `root`, for a `c` that is within `root`.
pub open spec fn relative_to(c: Seq<char>, root: Seq<char>) -> Seq<char> {
    if c.len() <= root.len() {
        Seq::empty()
    } else {
        c.subrange(root.len() + 1int, c.len() as int)
    }
}

/// The parent of a relative path: none for the empty path, the empty path for
/// a single segment, else all before the last `/`.
pub open spec fn parent_of(p: Seq<char>) -> Option<Seq<char>> {
    if p.len() == 0 {
        None
    } else if last_index_of(p, '/') < 0 {
        Some(Seq::empty())
    } else {
        Some(p.subrange(0, last_index_of(p, '/')))
    }
}

/// `candidate` placed under `base`: an absolute candidate stands for itself,
/// the empty one for `base`, any other is appended after a `/`.
pub open spec fn joined(base: Seq<char>, candidate: Seq<char>) -> Seq<char> {
    if candidate.len() == 0 {
        base
    } else if candidate[0] == '/' {
        candidate
    } else {
        base + seq!['/'] + candidate
    }
}

/// Position of the last `c` in `s`.
pub fn find_last(s: &str, c: char) -> (r: Option<usize>)
    ensures
        r == (if last_index_of(s@, c) < 0 {
            None
        } else {
            Some(last_index_of(s@, c) as usize)
        }),
        r is Some ==> r.unwrap() < s@.len(),
        -1 <= last_index_of(s@, c) < s@.len(),
{
    proof {
        lemma_last_index_of_bounds(s@, c);
    }
    let n = s.unicode_len();
    let mut i: usize = n;
    assert(s@.subrange(0, n as int) =~= s@);
    while i > 0
        invariant
            i <= n,
            n == s@.len(),
            last_index_of(s@, c) == last_index_of(s@.subrange(0, i as int), c),
        decreases i,
    {
        assert(s@.subrange(0, i as int).drop_last() =~= s@.subrange(0, i - 1));
        if s.get_char(i - 1) == c {
            return Some(i - 1);
        }
        i = i - 1;
    }
    None
}

/// Characters `from..to` of `s` as an owned string.
fn slice(s: &str, from: usize, to: usize) -> (r: String)
    requires
        from <= to <= s@.len(),
    ensures
        r@ == s@.subrange(from as int, to as int),
{
    String::from_str(s.substring_char(from, to))
}

/// The last segment of `p`.
pub fn file_name_of(p: &str) -> (r: String)
    ensures
        r@ == file_name(p@),
{
    let n = p.unicode_len();
    match find_last(p, '/') {
        Some(k) => slice(p, k + 1, n),
        None => slice(p, 0, n),
    }
}

/// Whether the last segment of `p` names an entry.
pub fn names_entry(p: &str) -> (r: bool)
    ensures
        r == has_file_name(p@),
{
    let name = file_name_of(p);
    let n = name.unicode_len();
    if n == 0 {
        return false;
    }
    if name.as_str().get_char(0) != '.' {
        assert(name@[0] != '.');
        assert(name@ != seq!['.']);
        assert(name@ != seq!['.', '.']);
        return true;
    }
    if n == 1 {
        assert(name@ =~= seq!['.']);
        return false;
    }
    if n == 2 && name.as_str().get_char(1) == '.' {
        assert(name@ =~= seq!['.', '.']);
        return false;
    }
    assert(name@ != seq!['.']);
    assert(name@ != seq!['.', '.']);
    true
}

/// The stem of the file name `name`.
pub fn stem_of(name: &str) -> (r: String)
    ensures
        r@ == stem(name@),
{
    let n = name.unicode_len();
    assert(name@.subrange(0, n as int) =~= name@);
    let end = match find_last(name, '.') {
        Some(d) => if d == 0 {
            n
        } else {
            d
        },
        None => n,
    };
    slice(name, 0, end)
}

/// Whether the file name `name` has exactly the extension `md`.
pub fn is_markdown_name(name: &str) -> (r: bool)
    ensures
        r == (extension(name@) == Some(seq!['m', 'd'])),
{
    let n = name.unicode_len();
    match find_last(name, '.') {
        Some(d) => {
            if d == 0 {
                return false;
            }
            if n - d != 3 {
                assert(name@.subrange(d + 1, n as int).len() != 2);
                return false;
            }
            let r = name.get_char(d + 1) == 'm' && name.get_char(d + 2) == 'd';
            assert(r ==> name@.subrange(d + 1, n as int) =~= seq!['m', 'd']);
            assert(!r ==> name@.subrange(d + 1, n as int) !~= seq!['m', 'd']);
            r
        },
        None => false,
    }
}

/// Whether `c` lies within `root`, as [`within`] states.
pub fn is_within(c: &str, root: &str) -> (r: bool)
    ensures
        r == within(c@, root@),
{
    let n = root.unicode_len();
    let m = c.unicode_len();
    if m < n {
        return false;
    }
    let mut i: usize = 0;
    while i < n
        invariant
            i <= n <= m,
            n == root@.len(),
            m == c@.len(),
            c@.subrange(0, i as int) =~= root@.subrange(0, i as int),
        decreases n - i,
    {
        if c.get_char(i) != root.get_char(i) {
            assert(c@.subrange(0, n as int)[i as int] != root@[i as int]);
            assert(c@ != root@);
            return false;
        }
        i = i + 1;
        assert(c@.subrange(0, i as int) =~= root@.subrange(0, i as int));
    }
    assert(c@.subrange(0, n as int) =~= root@);
    if m == n {
        assert(c@ =~= root@);
        true
    } else {
        c.get_char(n) == '/'
    }
}

/// `c` relative to `root`.
pub fn relative_of(c: &str, root: &str) -> (r: String)
    ensures
        r@ == relative_to(c@, root@),
{
    let n = root.unicode_len();
    let m = c.unicode_len();
    if m <= n {
        String::new()
    } else {
        slice(c, n + 1, m)
    }
}

/// The parent of the relative path `p`, as [`parent_of`] states.
pub fn parent_path(p: &str) -> (r: Option<String>)
    ensures
        r.is_some() == parent_of(p@).is_some(),
        r.is_some() ==> r.unwrap()@ == parent_of(p@).unwrap(),
{
    let n = p.unicode_len();
    if n == 0 {
        return None;
    }
    match find_last(p, '/') {
        Some(k) => Some(slice(p, 0, k)),
        None => Some(String::new()),
    }
}

/// `candidate` placed under `base`, as [`joined`] states.
pub fn join_path(base: &str, candidate: &str) -> (r: String)
    ensures
        r@ == joined(base@, candidate@),
{
    let n = candidate.unicode_len();
    if n == 0 {
        return String::from_str(base);
    }
    if candidate.get_char(0) == '/' {
        return String::from_str(candidate);
    }
    let mut r = String::from_str(base);
    r.append("/");
    proof {
        reveal_strlit("/");
    }
    r.append(candidate);
    r
}

} // verus!
